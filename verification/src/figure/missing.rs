//! Characters a figure asks its font for that the font does not have, kept to warn about
//! once per layer rather than failing the figure.

use crate::chars::{debug_quoted, debug_text, from_chars, is_white, push_str, to_chars};
use crate::text::{face_maps_char, Font};
use vstd::prelude::*;

verus! {

/// Whether the characters of `s` run strictly upwards.
pub open spec fn ascending(s: Seq<char>) -> bool {
    forall|i: int, j: int| 0 <= i < j < s.len() ==> (s[i] as int) < (s[j] as int)
}

/// Whether `font` can letter `c`: white space always, anything else when the face has a
/// glyph for it.
pub open spec fn letters(font: Font, c: char) -> bool {
    is_white(c) || face_maps_char(font.bytes(), c)
}

/// The characters asked for that the font does not have, each once, in code-point order.
pub struct Missing {
    chars: Vec<char>,
}

impl View for Missing {
    type V = Set<char>;

    closed spec fn view(&self) -> Set<char> {
        self.chars@.to_set()
    }
}

impl Missing {
    /// The missing characters, in code-point order.
    pub closed spec fn listing(&self) -> Seq<char> {
        self.chars@
    }

    /// Each character once, in order.
    pub closed spec fn wf(&self) -> bool {
        ascending(self.chars@)
    }

    /// Nothing missing yet.
    pub fn new() -> (m: Self)
        ensures
            m.wf(),
            m@ == Set::<char>::empty(),
    {
        let m = Missing { chars: Vec::new() };
        assert(m.chars@.to_set() =~= Set::<char>::empty());
        m
    }

    /// The listing is the set in order: the only ascending sequence of its members.
    pub proof fn lemma_listing(&self)
        requires
            self.wf(),
        ensures
            ascending(self.listing()),
            self.listing().to_set() == self@,
            self.listing().no_duplicates(),
    {
    }

    /// Add `c` if it is not there yet, keeping the order.
    fn add(&mut self, c: char)
        requires
            old(self).wf(),
        ensures
            final(self).wf(),
            final(self)@ == old(self)@.insert(c),
    {
        let mut p: usize = 0;
        while p < self.chars.len() && self.chars[p] < c
            invariant
                p <= self.chars@.len(),
                forall|i: int| 0 <= i < p ==> (#[trigger] self.chars@[i] as int) < (c as int),
            decreases self.chars@.len() - p,
        {
            p += 1;
        }
        if p < self.chars.len() && self.chars[p] == c {
            assert(self.chars@.to_set().insert(c) =~= self.chars@.to_set()) by {
                assert(self.chars@.contains(c));
            }
            return;
        }
        let ghost before = self.chars@;
        self.chars.insert(p, c);
        proof {
            let now = self.chars@;
            assert(now == before.insert(p as int, c));
            assert forall|i: int, j: int| 0 <= i < j < now.len() implies (now[i] as int) < (
            now[j] as int) by {
                if p < before.len() {
                    assert((c as int) < (before[p as int] as int));
                }
                if i < p && j < p {
                    assert(now[i] == before[i] && now[j] == before[j]);
                } else if i < p && j == p {
                    assert(now[i] == before[i]);
                } else if i < p {
                    assert(now[i] == before[i] && now[j] == before[j - 1]);
                } else if i == p {
                    assert(now[j] == before[j - 1]);
                    if j - 1 > p {
                        assert((before[p as int] as int) < (before[j - 1] as int));
                    }
                } else {
                    assert(now[i] == before[i - 1] && now[j] == before[j - 1]);
                }
            }
            assert(now.to_set() =~= before.to_set().insert(c)) by {
                assert forall|x: char| #[trigger] now.contains(x) <==> (before.contains(x) || x == c) by {
                    if now.contains(x) {
                        let k = choose|k: int| 0 <= k < now.len() && now[k] == x;
                        if k < p {
                            assert(before[k] == x);
                        } else if k > p {
                            assert(before[k - 1] == x);
                        }
                    }
                    if before.contains(x) {
                        let k = choose|k: int| 0 <= k < before.len() && before[k] == x;
                        if k < p {
                            assert(now[k] == x);
                        } else {
                            assert(now[k + 1] == x);
                        }
                    }
                    if x == c {
                        assert(now[p as int] == c);
                    }
                }
            }
        }
    }

    /// Note the characters of `s` that `font` cannot letter.
    pub fn note(&mut self, font: &Font, s: &str)
        requires
            old(self).wf(),
        ensures
            final(self).wf(),
            final(self)@ == old(self)@.union(
                Set::new(|c: char| s@.contains(c) && !letters(*font, c)),
            ),
    {
        let v = to_chars(s);
        let ghost start = self@;
        let mut i: usize = 0;
        while i < v.len()
            invariant
                v@ == s@,
                i <= v@.len(),
                self.wf(),
                self@ == start.union(
                    Set::new(|c: char| v@.take(i as int).contains(c) && !letters(*font, c)),
                ),
            decreases v@.len() - i,
        {
            let c = v[i];
            let lacks = !font.has_char(c);
            if lacks {
                self.add(c);
            }
            proof {
                assert(Set::new(|x: char| v@.take(i + 1).contains(x) && !letters(*font, x))
                    =~= if lacks {
                    Set::new(|x: char| v@.take(i as int).contains(x) && !letters(*font, x)).insert(c)
                } else {
                    Set::new(|x: char| v@.take(i as int).contains(x) && !letters(*font, x))
                }) by {
                    assert(v@.take(i + 1) == v@.take(i as int).push(c));
                    assert forall|x: char| #[trigger] v@.take(i + 1).contains(x) <==> v@.take(
                        i as int,
                    ).contains(x) || x == c by {
                        vstd::seq_lib::lemma_seq_contains_after_push(v@.take(i as int), c, x);
                    }
                }
            }
            i += 1;
        }
        assert(v@.take(v@.len() as int) == v@);
    }

    /// Whether nothing is missing.
    pub fn is_empty(&self) -> (b: bool)
        ensures
            b == (self@ == Set::<char>::empty()),
    {
        if self.chars.len() == 0 {
            assert(self.chars@.to_set() =~= Set::<char>::empty());
            true
        } else {
            assert(self.chars@.to_set().contains(self.chars@[0]));
            false
        }
    }

    /// The warning for layer `layer` when anything is missing: the layer's name and the
    /// characters, both as `Debug` writes them.
    pub fn warning(&self, layer: &str) -> (w: Option<String>)
        ensures
            w is None <==> self@ == Set::<char>::empty(),
            w matches Some(t) ==> t@ == "layer "@ + debug_quoted(layer@)
                + ": the font has no glyph for "@ + debug_quoted(self.listing()),
    {
        if self.is_empty() {
            return None;
        }
        let mut m: Vec<char> = Vec::new();
        push_str(&mut m, "layer ");
        push_str(&mut m, debug_text(layer).as_str());
        push_str(&mut m, ": the font has no glyph for ");
        let listed = from_chars(self.chars.as_slice());
        push_str(&mut m, debug_text(listed.as_str()).as_str());
        Some(from_chars(&m))
    }
}

} // verus!
