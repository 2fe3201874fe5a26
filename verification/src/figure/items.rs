//! The words of a ring of text: each slot holds one line, or a stack of lines, and a line
//! written `{name}` is a symbol rather than letters.

use crate::chars::{debug_quoted, debug_text, from_chars, push_str};
use super::symbols::{token_symbol, Symbol};
use vstd::prelude::*;

verus! {

/// What one slot of a ring of text holds.
#[derive(Debug)]
pub enum Item {
    /// One line, centred on the slot.
    Line(String),
    /// Lines stacked across the track, the first outermost.
    Stack(Vec<String>),
}

/// The lines an item holds, as text.
pub open spec fn item_lines(item: Item) -> Seq<Seq<char>> {
    match item {
        Item::Line(s) => seq![s@],
        Item::Stack(v) => v@.map_values(|s: String| s@),
    }
}

/// Every line of `items`, item by item.
pub open spec fn all_lines(items: Seq<Item>) -> Seq<Seq<char>>
    decreases items.len(),
{
    if items.len() == 0 {
        seq![]
    } else {
        all_lines(items.drop_last()) + item_lines(items.last())
    }
}

/// The first line that names a symbol there is none of, with what is said of the name.
pub open spec fn first_bad_token(lines: Seq<Seq<char>>) -> Option<(Seq<char>, Seq<char>)>
    decreases lines.len(),
{
    if lines.len() == 0 {
        None
    } else {
        match token_symbol(lines[0]) {
            Some(Err(e)) => Some((lines[0], e)),
            _ => first_bad_token(lines.drop_first()),
        }
    }
}

/// What is wrong with the items of a ring of text, if anything: there are none, or a line
/// names a symbol there is none of (the first such line is the one reported).
pub open spec fn items_complaint(items: Seq<Item>) -> Option<Seq<char>> {
    if items.len() == 0 {
        Some("`items` is empty"@)
    } else {
        match first_bad_token(all_lines(items)) {
            Some((line, e)) => Some("item "@ + debug_quoted(line) + ": "@ + e),
            None => None,
        }
    }
}

proof fn lemma_first_bad_concat(a: Seq<Seq<char>>, b: Seq<Seq<char>>)
    ensures
        first_bad_token(a + b) == (if first_bad_token(a) is Some {
            first_bad_token(a)
        } else {
            first_bad_token(b)
        }),
    decreases a.len(),
{
    if a.len() == 0 {
        assert(a + b == b);
    } else {
        assert((a + b).drop_first() == a.drop_first() + b);
        lemma_first_bad_concat(a.drop_first(), b);
    }
}

/// The line `s` alone: no bad token, or `s` with what is said of it.
proof fn lemma_first_bad_one(s: Seq<char>)
    ensures
        first_bad_token(seq![s]) == (match token_symbol(s) {
            Some(Err(e)) => Some((s, e)),
            _ => None::<(Seq<char>, Seq<char>)>,
        }),
{
    assert(seq![s].drop_first() == Seq::<Seq<char>>::empty());
    assert(first_bad_token(Seq::<Seq<char>>::empty()) is None);
}

/// Reject items that are empty, or that name a symbol there is none of.
pub fn check_items(items: &[Item]) -> (r: Result<(), String>)
    ensures
        r is Ok <==> items_complaint(items@) is None,
        r matches Err(m) ==> items_complaint(items@) == Some(m@),
{
    if items.len() == 0 {
        return Err(String::from_str("`items` is empty"));
    }
    let mut i: usize = 0;
    while i < items.len()
        invariant
            i <= items@.len(),
            first_bad_token(all_lines(items@.take(i as int))) is None,
        decreases items@.len() - i,
    {
        let lines: Vec<&str> = match &items[i] {
            Item::Line(s) => {
                let mut ls: Vec<&str> = Vec::new();
                ls.push(s.as_str());
                ls
            },
            Item::Stack(v) => {
                let mut ls: Vec<&str> = Vec::new();
                let mut k: usize = 0;
                while k < v.len()
                    invariant
                        k <= v@.len(),
                        ls@.len() == k,
                        forall|t: int| 0 <= t < k ==> (#[trigger] ls@[t])@ == v@[t]@,
                    decreases v@.len() - k,
                {
                    ls.push(v[k].as_str());
                    k += 1;
                }
                ls
            },
        };
        let ghost here = item_lines(items@[i as int]);
        assert(lines@.len() == here.len() && forall|t: int| 0 <= t < here.len() ==> (#[trigger] lines@[t])@ == here[t]);
        let mut j: usize = 0;
        while j < lines.len()
            invariant
                i < items@.len(),
                j <= lines@.len(),
                here == item_lines(items@[i as int]),
                lines@.len() == here.len(),
                forall|t: int| 0 <= t < here.len() ==> (#[trigger] lines@[t])@ == here[t],
                first_bad_token(all_lines(items@.take(i as int))) is None,
                first_bad_token(here.take(j as int)) is None,
            decreases lines@.len() - j,
        {
            let s = lines[j];
            proof {
                assert(here.take(j + 1) == here.take(j as int) + seq![here[j as int]]);
                lemma_first_bad_concat(here.take(j as int), seq![here[j as int]]);
                lemma_first_bad_one(here[j as int]);
            }
            if let Some(Err(e)) = Symbol::from_token(s) {
                proof {
                    let pre = all_lines(items@.take(i as int));
                    let upto = items@.take(i + 1);
                    assert(upto.drop_last() == items@.take(i as int));
                    assert(all_lines(upto) == pre + here);
                    assert(here == here.take(j as int) + here.skip(j as int));
                    assert(here.skip(j as int) == seq![here[j as int]] + here.skip(j + 1));
                    lemma_first_bad_concat(here.take(j as int), here.skip(j as int));
                    lemma_first_bad_concat(seq![here[j as int]], here.skip(j + 1));
                    lemma_first_bad_concat(pre, here);
                    assert(items@ == upto + items@.skip(i + 1));
                    lemma_all_lines_concat(upto, items@.skip(i + 1));
                    lemma_first_bad_concat(all_lines(upto), all_lines(items@.skip(i + 1)));
                }
                let mut m: Vec<char> = Vec::new();
                push_str(&mut m, "item ");
                push_str(&mut m, debug_text(s).as_str());
                push_str(&mut m, ": ");
                push_str(&mut m, e.as_str());
                return Err(from_chars(&m));
            }
            j += 1;
        }
        proof {
            let upto = items@.take(i + 1);
            assert(upto.drop_last() == items@.take(i as int));
            assert(here.take(here.len() as int) == here);
            lemma_first_bad_concat(all_lines(items@.take(i as int)), here);
        }
        i += 1;
    }
    assert(items@.take(items@.len() as int) == items@);
    Ok(())
}

proof fn lemma_all_lines_concat(a: Seq<Item>, b: Seq<Item>)
    ensures
        all_lines(a + b) == all_lines(a) + all_lines(b),
    decreases b.len(),
{
    if b.len() == 0 {
        assert(a + b == a);
        assert(all_lines(a) + all_lines(b) == all_lines(a));
    } else {
        assert((a + b).drop_last() == a + b.drop_last());
        lemma_all_lines_concat(a, b.drop_last());
        assert((a + b).last() == b.last());
    }
}

/// The symbol set beside every word when a flank does not name one.
pub fn default_flank_symbol() -> (s: Symbol)
    ensures
        s == Symbol::Cross,
{
    Symbol::Cross
}

} // verus!
