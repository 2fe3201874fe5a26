//! Typing into the figure: every character lights another letter of one ring, stepping
//! about a twelfth of the way round each time, clockwise from North, so what is typed
//! spreads round the ring like the marks of a clock face instead of bunching up in one
//! word. Backspace puts the last one out again.
//!
//! Here are the whole-number decisions: which letter a keystroke lights, and which lit
//! letter a backspace puts out.

use vstd::prelude::*;

verus! {

/// How many letters one keystroke steps round a ring of `n`: a twelfth of the ring, and at
/// least one.
pub open spec fn stride(n: nat) -> nat {
    if n / 12 >= 1 { n / 12 } else { 1 }
}

/// The letter of a ring of `n` that the keystroke after `typed` others lights: `typed`
/// strides round, nudged on by one each lap of twelve so the second lap does not land on
/// the first.
pub open spec fn letter_for(typed: nat, n: nat) -> nat {
    (typed * stride(n) + typed / 12) % n
}

/// Which letter of a ring of `n` the keystroke after `typed` others lights.
pub fn key_letter(typed: usize, n: usize) -> (i: usize)
    requires
        n > 0,
        typed * stride(n as nat) + typed / 12 <= usize::MAX,
    ensures
        i == letter_for(typed as nat, n as nat),
        i < n,
{
    let stride: usize = if n / 12 >= 1 { n / 12 } else { 1 };
    (typed * stride + typed / 12) % n
}

/// Whether `i` is the last entry of `out` that is not put out yet.
pub open spec fn is_last_lit(out: Seq<bool>, i: int) -> bool {
    &&& 0 <= i < out.len()
    &&& !out[i]
    &&& forall|j: int| i < j < out.len() ==> #[trigger] out[j]
}

/// The lit letter a backspace puts out: the last one, in the order they were lit, that is
/// not already going out. `out` says, for each lit letter in that order, whether it is.
pub fn last_lit(out: &[bool]) -> (r: Option<usize>)
    ensures
        r matches Some(i) ==> is_last_lit(out@, i as int),
        r is None <==> forall|j: int| 0 <= j < out@.len() ==> #[trigger] out@[j],
{
    let mut k: usize = out.len();
    while k > 0
        invariant
            k <= out@.len(),
            forall|j: int| k <= j < out@.len() ==> #[trigger] out@[j],
        decreases k,
    {
        if !out[k - 1] {
            return Some(k - 1);
        }
        k -= 1;
    }
    None
}

/// On a ring of a whole number of dozens of letters, two or more to the step, the second
/// twelve keystrokes light none of the letters the first twelve lit.
pub proof fn lemma_second_lap_misses_the_first(n: nat, a: nat, b: nat)
    requires
        n % 12 == 0,
        n / 12 >= 2,
        a < 12,
        12 <= b < 24,
    ensures
        letter_for(a, n) != letter_for(b, n),
{
    let s = n / 12;
    assert(n == 12 * s);
    assert(stride(n) == s);
    let x = a * s;
    let y = (b - 12) * s + 1;
    assert(b / 12 == 1);
    assert(a / 12 == 0);
    assert(0 <= x < n && 0 <= y < n && a * s + a / 12 == x && b * s + b / 12 == y + n)
        by (nonlinear_arith)
        requires
            n == 12 * s,
            s >= 2,
            a < 12,
            12 <= b < 24,
            x == a * s,
            y == (b - 12) * s + 1,
            b / 12 == 1,
            a / 12 == 0,
    ;
    vstd::arithmetic::div_mod::lemma_mod_add_multiples_vanish(y as int, n as int);
    vstd::arithmetic::div_mod::lemma_small_mod(x as nat, n);
    vstd::arithmetic::div_mod::lemma_small_mod(y as nat, n);
    assert(x != y) by (nonlinear_arith)
        requires
            x == a * s,
            y == (b - 12) * s + 1,
            s >= 2,
    {
        if x == y {
            assert(s * (a + 12 - b) == 1);
        }
    }
}

/// A letter that was lit: which one of the ring, how long ago, and, once it has been put
/// out, how long ago that was. `A` is how the viewer measures time.
#[derive(Debug, Clone, Copy)]
pub struct Lit<A> {
    pub letter: usize,
    pub age: A,
    pub out: Option<A>,
}

/// What is typed into one ring of `letters` letters: how many keys count, and the letters
/// lit, oldest first, at most `cap` of them.
pub struct Typing<A> {
    letters: usize,
    typed: usize,
    cap: usize,
    lit: Vec<Lit<A>>,
}

/// The lit letters after one more, `new`, in a list holding at most `cap`: the oldest makes
/// room when it is full.
pub open spec fn lit_after_key<A>(lit: Seq<Lit<A>>, new: Lit<A>, cap: nat) -> Seq<Lit<A>> {
    if lit.len() >= cap {
        lit.drop_first().push(new)
    } else {
        lit.push(new)
    }
}

/// `lit` with every letter not yet put out put out, at time `zero`.
pub open spec fn all_out<A>(lit: Seq<Lit<A>>, zero: A) -> Seq<Lit<A>> {
    lit.map_values(
        |l: Lit<A>|
            if l.out is None {
                Lit { letter: l.letter, age: l.age, out: Some(zero) }
            } else {
                l
            },
    )
}

impl<A: Copy> Typing<A> {
    /// How many letters the ring has.
    pub closed spec fn letters(&self) -> nat {
        self.letters as nat
    }

    /// How many keystrokes count: each lights a letter, backspace takes one back.
    pub closed spec fn typed(&self) -> nat {
        self.typed as nat
    }

    /// The most letters lit at once.
    pub closed spec fn cap(&self) -> nat {
        self.cap as nat
    }

    /// The lit letters, oldest first.
    pub closed spec fn lit(&self) -> Seq<Lit<A>> {
        self.lit@
    }

    /// Never more letters lit than `cap`.
    pub open spec fn wf(&self) -> bool {
        self.lit().len() <= self.cap()
    }

    /// Nothing typed yet on a ring of `letters`, lighting at most `cap` letters at once.
    pub fn new(letters: usize, cap: usize) -> (t: Self)
        ensures
            t.wf(),
            t.letters() == letters,
            t.typed() == 0,
            t.cap() == cap,
            t.lit() == Seq::<Lit<A>>::empty(),
    {
        Typing { letters, typed: 0, cap, lit: Vec::new() }
    }

    /// The lit letters, oldest first.
    pub fn lit_letters(&self) -> (l: &[Lit<A>])
        ensures
            l@ == self.lit(),
    {
        self.lit.as_slice()
    }

    /// A character was typed: light the next letter, at time `zero`, and say which. A ring
    /// with no letters lights nothing.
    pub fn key(&mut self, zero: A) -> (r: Option<usize>)
        requires
            old(self).wf(),
            old(self).cap() > 0,
            old(self).typed() < usize::MAX,
            old(self).typed() * stride(old(self).letters()) + old(self).typed() / 12 <= usize::MAX,
        ensures
            final(self).wf(),
            final(self).letters() == old(self).letters(),
            final(self).cap() == old(self).cap(),
            old(self).letters() == 0 ==> r is None && final(self).typed() == old(self).typed()
                && final(self).lit() == old(self).lit(),
            old(self).letters() > 0 ==> {
                let i = letter_for(old(self).typed(), old(self).letters());
                &&& r == Some(i as usize)
                &&& final(self).typed() == old(self).typed() + 1
                &&& final(self).lit() == lit_after_key(
                    old(self).lit(),
                    Lit { letter: i as usize, age: zero, out: None },
                    old(self).cap(),
                )
            },
    {
        if self.letters == 0 {
            return None;
        }
        let i = key_letter(self.typed, self.letters);
        self.typed = self.typed + 1;
        if self.lit.len() >= self.cap {
            self.lit.remove(0);
        }
        self.lit.push(Lit { letter: i, age: zero, out: None });
        Some(i)
    }

    /// Backspace: put the last lit letter that is not going out already out, at time
    /// `zero`, and take its keystroke back. With none, nothing changes.
    pub fn back(&mut self, zero: A)
        requires
            old(self).wf(),
        ensures
            final(self).wf(),
            final(self).letters() == old(self).letters(),
            final(self).cap() == old(self).cap(),
            (forall|j: int| 0 <= j < old(self).lit().len() ==> (#[trigger] old(self).lit()[j]).out
                is Some) ==> final(self).typed() == old(self).typed() && final(self).lit()
                == old(self).lit(),
            forall|k: int|
                last_going(old(self).lit(), k) ==> {
                    &&& final(self).typed() == (if old(self).typed() > 0 {
                        old(self).typed() - 1
                    } else {
                        0
                    })
                    &&& final(self).lit() == old(self).lit().update(
                        k,
                        Lit { letter: old(self).lit()[k].letter, age: old(self).lit()[k].age, out: Some(zero) },
                    )
                },
    {
        let mut k: usize = self.lit.len();
        while k > 0
            invariant
                self.letters == old(self).letters,
                self.cap == old(self).cap,
                self.typed == old(self).typed,
                self.lit@ == old(self).lit@,
                self.lit@.len() <= self.cap,
                k <= self.lit@.len(),
                forall|j: int| k <= j < self.lit@.len() ==> (#[trigger] self.lit@[j]).out is Some,
            decreases k,
        {
            if self.lit[k - 1].out.is_none() {
                let l = self.lit[k - 1];
                let ghost before = self.lit@;
                self.lit.set(k - 1, Lit { letter: l.letter, age: l.age, out: Some(zero) });
                self.typed = if self.typed > 0 { self.typed - 1 } else { 0 };
                proof {
                    assert forall|k2: int| last_going(before, k2) implies k2 == k - 1 by {
                        if k2 < k - 1 {
                            assert(before[k - 1].out is Some);
                        }
                    }
                }
                return;
            }
            k -= 1;
        }
        assert forall|k2: int| !last_going(self.lit@, k2) by {}
    }

    /// Every letter put out, at time `zero`: what was typed has been sent.
    pub fn clear(&mut self, zero: A)
        requires
            old(self).wf(),
        ensures
            final(self).wf(),
            final(self).letters() == old(self).letters(),
            final(self).cap() == old(self).cap(),
            final(self).typed() == 0,
            final(self).lit() == all_out(old(self).lit(), zero),
    {
        let ghost start = self.lit@;
        let mut j: usize = 0;
        while j < self.lit.len()
            invariant
                self.letters == old(self).letters,
                self.cap == old(self).cap,
                start == old(self).lit@,
                start.len() <= self.cap,
                self.lit@.len() == start.len(),
                j <= start.len(),
                forall|i: int| 0 <= i < j ==> #[trigger] self.lit@[i] == all_out(start, zero)[i],
                forall|i: int| j <= i < start.len() ==> #[trigger] self.lit@[i] == start[i],
            decreases start.len() - j,
        {
            let l = self.lit[j];
            if l.out.is_none() {
                self.lit.set(j, Lit { letter: l.letter, age: l.age, out: Some(zero) });
            }
            j += 1;
        }
        assert(self.lit@ == all_out(start, zero));
        self.typed = 0;
    }
}

/// Whether entry `k` of `lit` is the last letter not yet going out.
pub open spec fn last_going<A>(lit: Seq<Lit<A>>, k: int) -> bool {
    &&& 0 <= k < lit.len()
    &&& lit[k].out is None
    &&& forall|j: int| k < j < lit.len() ==> (#[trigger] lit[j]).out is Some
}

/// Backspace gives the letter back: right after a key, the letter it lit is the last one
/// not going out, so a backspace puts that one out and takes the keystroke back (`back`
/// brings `typed` back to what it was before the key), and the next key lights the same
/// letter again.
pub proof fn lemma_backspace_gives_the_letter_back<A>(lit: Seq<Lit<A>>, new: Lit<A>, cap: nat)
    requires
        new.out is None,
        cap > 0,
    ensures
        last_going(lit_after_key(lit, new, cap), lit_after_key(lit, new, cap).len() - 1),
        lit_after_key(lit, new, cap).last() == new,
{
}

} // verus!
