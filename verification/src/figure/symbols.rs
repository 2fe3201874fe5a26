//! The symbols a figure can draw, by the names the file uses for them.

use crate::chars::{from_chars, push_range, push_str, to_chars};
use vstd::prelude::*;

verus! {

/// Shapes drawn from geometry rather than from the font.
#[derive(Debug, Clone, Copy, PartialEq, Eq, Structural)]
pub enum Symbol {
    /// A cross pattée: arms flaring from a narrow waist along concave curves.
    Cross,
    /// A cross potent (☩): straight arms, each ending in a crossbar. The plate's own cross.
    CrossPotent,
    /// A plain Latin cross with bare arms.
    LatinCross,
    /// An orb: a ringed circle with a cross potent standing on top.
    Orb,
    /// A tower: two posts joined by three rungs, crowned with a small cross.
    Tower,
}

/// The symbol a name stands for.
pub open spec fn symbol_named(name: Seq<char>) -> Option<Symbol> {
    if name == "cross"@ {
        Some(Symbol::Cross)
    } else if name == "cross-potent"@ {
        Some(Symbol::CrossPotent)
    } else if name == "latin-cross"@ {
        Some(Symbol::LatinCross)
    } else if name == "orb"@ {
        Some(Symbol::Orb)
    } else if name == "tower"@ {
        Some(Symbol::Tower)
    } else {
        None
    }
}

/// `names` each in backticks, as serde lists the choices it expected: one alone, two
/// joined by `or`, more as `one of` and a comma-separated list.
pub open spec fn one_of(names: Seq<Seq<char>>) -> Seq<char> {
    if names.len() == 1 {
        "`"@ + names[0] + "`"@
    } else if names.len() == 2 {
        "`"@ + names[0] + "` or `"@ + names[1] + "`"@
    } else {
        "one of "@ + comma_list(names)
    }
}

/// `names` each in backticks, separated by `, `.
pub open spec fn comma_list(names: Seq<Seq<char>>) -> Seq<char>
    decreases names.len(),
{
    if names.len() == 0 {
        seq![]
    } else if names.len() == 1 {
        "`"@ + names[0] + "`"@
    } else {
        comma_list(names.drop_last()) + ", `"@ + names.last() + "`"@
    }
}

/// The message serde's `unknown_variant` gives for a name that is none of `expected`.
pub open spec fn unknown_variant_message(name: Seq<char>, expected: Seq<Seq<char>>) -> Seq<char> {
    if expected.len() == 0 {
        "unknown variant `"@ + name + "`, there are no variants"@
    } else {
        "unknown variant `"@ + name + "`, expected "@ + one_of(expected)
    }
}

/// The names of the symbols, as text.
pub open spec fn symbol_names() -> Seq<Seq<char>> {
    seq!["cross"@, "cross-potent"@, "latin-cross"@, "orb"@, "tower"@]
}

/// What a text item names, if it is a token `{name}`: the symbol, or why there is none.
pub open spec fn token_symbol(item: Seq<char>) -> Option<Result<Symbol, Seq<char>>> {
    if item.len() >= 2 && item[0] == '{' && item.last() == '}' {
        let name = item.subrange(1, item.len() - 1);
        match symbol_named(name) {
            Some(s) => Some(Ok(s)),
            None => Some(Err(unknown_variant_message(name, symbol_names()))),
        }
    } else {
        None
    }
}

/// serde's message for a symbol name it does not know (`unknown_variant`), listing the
/// ones it does.
fn unknown_symbol(name: &Vec<char>) -> (m: String)
    ensures
        m@ == unknown_variant_message(name@, symbol_names()),
{
    let mut out: Vec<char> = Vec::new();
    push_str(&mut out, "unknown variant `");
    push_range(&mut out, name, 0, name.len());
    push_str(&mut out, "`, expected ");
    push_str(&mut out, "one of ");
    push_str(&mut out, "`");
    push_str(&mut out, "cross");
    push_str(&mut out, "`");
    push_str(&mut out, ", `");
    push_str(&mut out, "cross-potent");
    push_str(&mut out, "`");
    push_str(&mut out, ", `");
    push_str(&mut out, "latin-cross");
    push_str(&mut out, "`");
    push_str(&mut out, ", `");
    push_str(&mut out, "orb");
    push_str(&mut out, "`");
    push_str(&mut out, ", `");
    push_str(&mut out, "tower");
    push_str(&mut out, "`");
    proof {
        let n = symbol_names();
        assert(name@.subrange(0, name@.len() as int) == name@);
        assert(n.drop_last() == seq!["cross"@, "cross-potent"@, "latin-cross"@, "orb"@]);
        assert(n.drop_last().drop_last() == seq!["cross"@, "cross-potent"@, "latin-cross"@]);
        assert(n.drop_last().drop_last().drop_last() == seq!["cross"@, "cross-potent"@]);
        assert(n.drop_last().drop_last().drop_last().drop_last() == seq!["cross"@]);
        reveal_with_fuel(comma_list, 6);
        assert(out@ == unknown_variant_message(name@, n));
    }
    from_chars(&out)
}

fn same_text(a: &Vec<char>, b: &str) -> (r: bool)
    ensures
        r == (a@ == b@),
{
    let bv = to_chars(b);
    if a.len() != bv.len() {
        return false;
    }
    let mut i: usize = 0;
    while i < a.len()
        invariant
            a@.len() == bv@.len(),
            bv@ == b@,
            i <= a@.len(),
            forall|k: int| 0 <= k < i ==> a@[k] == bv@[k],
        decreases a@.len() - i,
    {
        if a[i] != bv[i] {
            return false;
        }
        i += 1;
    }
    assert(a@ == bv@);
    true
}

impl Symbol {
    /// The symbol a text item like `"{cross}"` stands for, if it is one. Names are the same
    /// ones a `symbol:` field takes.
    pub fn from_token(item: &str) -> (r: Option<Result<Symbol, String>>)
        ensures
            r is None <==> token_symbol(item@) is None,
            r matches Some(Ok(s)) ==> token_symbol(item@) == Some(Ok::<Symbol, Seq<char>>(s)),
            r matches Some(Err(m)) ==> token_symbol(item@) == Some(Err::<Symbol, Seq<char>>(m@)),
    {
        let v = to_chars(item);
        if v.len() < 2 || v[0] != '{' || v[v.len() - 1] != '}' {
            return None;
        }
        let mut name: Vec<char> = Vec::new();
        let mut i: usize = 1;
        while i < v.len() - 1
            invariant
                2 <= v@.len(),
                1 <= i <= v@.len() - 1,
                name@ == v@.subrange(1, i as int),
            decreases v@.len() - i,
        {
            name.push(v[i]);
            i += 1;
        }
        let sym = if same_text(&name, "cross") {
            Symbol::Cross
        } else if same_text(&name, "cross-potent") {
            Symbol::CrossPotent
        } else if same_text(&name, "latin-cross") {
            Symbol::LatinCross
        } else if same_text(&name, "orb") {
            Symbol::Orb
        } else if same_text(&name, "tower") {
            Symbol::Tower
        } else {
            return Some(Err(unknown_symbol(&name)));
        };
        Some(Ok(sym))
    }
}

} // verus!
