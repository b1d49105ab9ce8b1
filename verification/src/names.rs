//! Names of transformed tiles: `tile.png` turned by `n` becomes `tile-n.png`,
//! and a tile already carrying a turn counter gets the counter advanced.

use vstd::prelude::*;
use crate::text::{
    decimal, decimal_chars, digit_char, digit_value, to_digit, last_index_of, lemma_last_index_of,
    lemma_last_index_of_is, lemma_byte_len_ascii, rfind_char, byte_len, utf8_width, byte_offset_below,
    extend_chars, chars_of, string_from_chars,
};
use crate::tile_set::RuleSet;

verus! {

/// The name given when a tile name has no extension dot.
pub open spec fn null_name() -> Seq<char> {
    seq!['N', 'u', 'l', 'l']
}

/// `name.ext` with `n` written before the extension: `name-n.ext`; `Null` when
/// the name has no dot.
pub open spec fn suffixed_name(old: Seq<char>, n: nat) -> Seq<char> {
    let j = last_index_of(old, '.');
    if j < 0 {
        null_name()
    } else {
        old.take(j) + seq!['-'] + decimal(n) + old.skip(j)
    }
}

/// The name of a tile transformed by `n`, ignoring symmetry: unchanged for 0.
pub open spec fn spec_nnew_tile_name(old: Seq<char>, n: u32) -> Seq<char> {
    if n != 0 {
        suffixed_name(old, n as nat)
    } else {
        old
    }
}

/// Symmetry classes whose turn counter runs modulo 4.
pub open spec fn turns_quarter(sym: Seq<char>) -> bool {
    sym == seq!['B'] || sym == seq!['T'] || sym == seq!['L'] || sym == seq!['Q']
}

/// Symmetry classes whose turn counter runs modulo 2.
pub open spec fn turns_half(sym: Seq<char>) -> bool {
    sym == seq!['I'] || sym == seq!['/']
}

/// The character position read as the turn counter: one past the byte offset
/// of the last `-` (the dash is found by byte offset and the counter is then
/// read by character position; the two agree on ASCII names).
pub open spec fn counter_position(old: Seq<char>) -> int {
    byte_len(old.take(last_index_of(old, '-'))) + 1
}

/// The turn counter after the last `-` can be read and advanced by `n`: it is a
/// decimal digit, the sum fits in a `u32`, and the character after the dash is
/// a single byte (so the name can be cut after it).
pub open spec fn renaming_defined(old: Seq<char>, n: u32) -> bool {
    let j = last_index_of(old, '-');
    let p = counter_position(old);
    &&& 0 <= p < old.len()
    &&& digit_value(old[p]) is Some
    &&& digit_value(old[p]).unwrap() + n <= u32::MAX
    &&& j + 1 < old.len()
    &&& utf8_width(old[j + 1]) == 1
}

/// The name with its turn counter advanced by `n` modulo `modulus`; a counter
/// that comes to 0 is dropped, with its dash.
pub open spec fn renumbered(old: Seq<char>, n: u32, modulus: nat) -> Seq<char> {
    let j = last_index_of(old, '-');
    let m = ((digit_value(old[counter_position(old)]).unwrap() + n) as nat) % modulus;
    let counter = if m != 0 {
        seq!['-'] + decimal(m)
    } else {
        Seq::<char>::empty()
    };
    old.take(j) + counter + old.skip(j + 2)
}

/// `new_tile_name` returns a name (rather than failing) on these arguments.
pub open spec fn new_tile_name_defined(old: Seq<char>, n: u32, sym: Seq<char>) -> bool {
    (n != 0 && (turns_quarter(sym) || turns_half(sym)) && last_index_of(old, '-') >= 0)
        ==> renaming_defined(old, n)
}

/// The name of tile `old` transformed by `n`, given its symmetry class.
pub open spec fn spec_new_tile_name(old: Seq<char>, n: u32, sym: Seq<char>) -> Seq<char> {
    if n == 0 {
        old
    } else if turns_quarter(sym) && last_index_of(old, '-') >= 0 {
        renumbered(old, n, 4)
    } else if turns_half(sym) && last_index_of(old, '-') >= 0 {
        renumbered(old, n, 2)
    } else {
        suffixed_name(old, n as nat)
    }
}

fn null_chars() -> (res: Vec<char>)
    ensures
        res@ == null_name(),
{
    let mut v: Vec<char> = Vec::new();
    v.push('N');
    v.push('u');
    v.push('l');
    v.push('l');
    assert(v@ =~= null_name());
    v
}

fn suffixed_chars(cs: &Vec<char>, n: u32) -> (res: Vec<char>)
    ensures
        res@ == suffixed_name(cs@, n as nat),
{
    match rfind_char(cs, '.') {
        None => null_chars(),
        Some(j) => {
            let mut out: Vec<char> = Vec::new();
            extend_chars(&mut out, cs, 0, j);
            out.push('-');
            let d = decimal_chars(n);
            extend_chars(&mut out, &d, 0, d.len());
            extend_chars(&mut out, cs, j, cs.len());
            assert(cs@.subrange(0, j as int) =~= cs@.take(j as int));
            assert(cs@.subrange(j as int, cs@.len() as int) =~= cs@.skip(j as int));
            assert(d@.subrange(0, d@.len() as int) =~= d@);
            assert(out@ =~= suffixed_name(cs@, n as nat));
            out
        },
    }
}

fn renumbered_chars(cs: &Vec<char>, n: u32, modulus: u32) -> (res: Option<Vec<char>>)
    requires
        last_index_of(cs@, '-') >= 0,
        modulus == 2 || modulus == 4,
    ensures
        match res {
            Some(v) => renaming_defined(cs@, n) && v@ == renumbered(cs@, n, modulus as nat),
            None => !renaming_defined(cs@, n),
        },
{
    proof {
        lemma_last_index_of(cs@, '-');
    }
    let j = match rfind_char(cs, '-') {
        Some(j) => j,
        None => {
            return None;
        },
    };
    if cs.len() < 2 {
        return None;
    }
    let off = match byte_offset_below(cs, j, cs.len() - 1) {
        Some(o) => o,
        None => {
            return None;
        },
    };
    let p = off + 1;
    let digit = match to_digit(cs[p]) {
        Some(d) => d,
        None => {
            return None;
        },
    };
    if digit > u32::MAX - n {
        return None;
    }
    if j + 1 >= cs.len() {
        return None;
    }
    if (cs[j + 1] as u32) >= 0x80 {
        return None;
    }
    let m = (digit + n) % modulus;
    let mut out: Vec<char> = Vec::new();
    extend_chars(&mut out, cs, 0, j);
    let ghost mid = out@;
    if m != 0 {
        out.push('-');
        let d = decimal_chars(m);
        extend_chars(&mut out, &d, 0, d.len());
        assert(d@.subrange(0, d@.len() as int) =~= d@);
    }
    extend_chars(&mut out, cs, j + 2, cs.len());
    proof {
        assert(cs@.subrange(0, j as int) =~= cs@.take(j as int));
        assert(cs@.subrange(j + 2, cs@.len() as int) =~= cs@.skip(j + 2));
        let counter = if m != 0 {
            seq!['-'] + decimal(m as nat)
        } else {
            Seq::<char>::empty()
        };
        assert(out@ =~= mid + counter + cs@.skip(j + 2));
        assert(out@ =~= renumbered(cs@, n, modulus as nat));
    }
    Some(out)
}

impl RuleSet {
    /// The name of `old_tile` transformed by `n`, whatever its symmetry:
    /// `name.ext` becomes `name-n.ext`; 0 leaves the name alone.
    pub fn nnew_tile_name(old_tile: &String, n: u32) -> (res: String)
        ensures
            res@ == spec_nnew_tile_name(old_tile@, n),
    {
        if n != 0 {
            let cs = chars_of(old_tile.as_str());
            string_from_chars(&suffixed_chars(&cs, n))
        } else {
            old_tile.clone()
        }
    }

    /// The name of `old_tile` transformed by `n` given its symmetry class, or
    /// nothing where the turn counter cannot be read.
    pub fn try_new_tile_name(old_tile: &String, n: u32, symmetry: &str) -> (res: Option<String>)
        ensures
            match res {
                Some(s) => new_tile_name_defined(old_tile@, n, symmetry@)
                    && s@ == spec_new_tile_name(old_tile@, n, symmetry@),
                None => !new_tile_name_defined(old_tile@, n, symmetry@),
            },
    {
        if n == 0 {
            return Some(old_tile.clone());
        }
        let sym = chars_of(symmetry);
        let quarter = sym.len() == 1 && (sym[0] == 'B' || sym[0] == 'T' || sym[0] == 'L' || sym[0] == 'Q');
        let half = sym.len() == 1 && (sym[0] == 'I' || sym[0] == '/');
        proof {
            assert(quarter == turns_quarter(symmetry@)) by {
                if sym.len() == 1 {
                    assert(seq![sym@[0]] =~= sym@);
                }
            }
            assert(half == turns_half(symmetry@)) by {
                if sym.len() == 1 {
                    assert(seq![sym@[0]] =~= sym@);
                }
            }
        }
        let cs = chars_of(old_tile.as_str());
        let dash = rfind_char(&cs, '-');
        if (quarter || half) && dash.is_some() {
            let modulus: u32 = if quarter { 4 } else { 2 };
            match renumbered_chars(&cs, n, modulus) {
                Some(v) => Some(string_from_chars(&v)),
                None => None,
            }
        } else {
            Some(string_from_chars(&suffixed_chars(&cs, n)))
        }
    }

    /// The name of `old_tile` transformed by `n` given its symmetry class: the
    /// four-turn classes B, T, L, Q and the two-turn classes I, / advance an
    /// existing turn counter; otherwise `n` is written before the extension.
    pub fn new_tile_name(old_tile: &String, n: u32, symmetry: &str) -> (res: String)
        requires
            new_tile_name_defined(old_tile@, n, symmetry@),
        ensures
            res@ == spec_new_tile_name(old_tile@, n, symmetry@),
    {
        match RuleSet::try_new_tile_name(old_tile, n, symmetry) {
            Some(s) => s,
            None => old_tile.clone(),
        }
    }
}

/// The number of turns after which a turning class comes back to its tile: 4
/// for B, T, L, Q and 2 for I, /.
pub open spec fn turn_period(sym: Seq<char>) -> nat {
    if turns_quarter(sym) {
        4
    } else {
        2
    }
}

/// Renamings in a turning class compose: a plain tile name (ASCII, with an
/// extension dot and no dash) turned by `a`, then by `b`, gets the name for
/// `a + b` turns modulo the class's period; a full period gives the tile back.
pub proof fn law_turns_compose(t: Seq<char>, a: u32, b: u32, sym: Seq<char>)
    requires
        turns_quarter(sym) || turns_half(sym),
        a < turn_period(sym),
        b < turn_period(sym),
        forall|i: int| 0 <= i < t.len() ==> (#[trigger] t[i] as u32) < 0x80,
        last_index_of(t, '.') >= 0,
        last_index_of(t, '-') < 0,
    ensures
        new_tile_name_defined(t, a, sym),
        new_tile_name_defined(spec_new_tile_name(t, a, sym), b, sym),
        spec_new_tile_name(spec_new_tile_name(t, a, sym), b, sym) == spec_new_tile_name(
            t,
            (((a + b) as nat) % turn_period(sym)) as u32,
            sym,
        ),
{
    lemma_last_index_of(t, '-');
    lemma_last_index_of(t, '.');
    let per = turn_period(sym);
    if a != 0 {
        let j = last_index_of(t, '.');
        let dig = digit_char(a as nat);
        assert(decimal(a as nat) == seq![dig]);
        let u = t.take(j) + seq!['-'] + seq![dig] + t.skip(j);
        assert(u == suffixed_name(t, a as nat));
        assert(u[j] == '-');
        assert(u[j + 1] == dig);
        assert forall|k: int| j < k < u.len() implies u[k] != '-' by {
            if k > j + 1 {
                assert(u[k] == t.skip(j)[k - j - 2]);
                assert(t.skip(j)[k - j - 2] == t[k - 2]);
            }
        }
        lemma_last_index_of_is(u, '-', j);
        assert(u.take(j) =~= t.take(j));
        assert forall|i: int| 0 <= i < t.take(j).len() implies (#[trigger] t.take(j)[i] as u32) < 0x80 by {
            assert(t.take(j)[i] == t[i]);
        }
        lemma_byte_len_ascii(t.take(j));
        assert(counter_position(u) == j + 1);
        assert(digit_value(dig) == Some(a));
        if b != 0 {
            let m = ((a + b) as nat) % per;
            assert(u.skip(j + 2) =~= t.skip(j));
            let counter = if m != 0 {
                seq!['-'] + decimal(m)
            } else {
                Seq::<char>::empty()
            };
            assert(renumbered(u, b, per) == u.take(j) + counter + u.skip(j + 2));
            if m != 0 {
                assert(renumbered(u, b, per) =~= suffixed_name(t, m));
            } else {
                assert(renumbered(u, b, per) =~= t);
            }
        }
    }
}

/// Only the classes B, T, L, Q renumber modulo 4 and only I and / modulo 2:
/// a tile name with a turn counter in one of these classes gets its counter
/// advanced, and every other class, whatever dashes the name holds, gets
/// `-n` written before the last dot (`Null` without a dot). Turn 0 keeps the
/// name.
pub proof fn law_turning_classes(old: Seq<char>, n: u32, sym: Seq<char>)
    ensures
        n == 0 ==> spec_new_tile_name(old, n, sym) == old,
        n != 0 && (sym == seq!['B'] || sym == seq!['T'] || sym == seq!['L'] || sym == seq!['Q'])
            && last_index_of(old, '-') >= 0 ==> spec_new_tile_name(old, n, sym) == renumbered(old, n, 4),
        n != 0 && (sym == seq!['I'] || sym == seq!['/']) && last_index_of(old, '-') >= 0 ==> spec_new_tile_name(
            old,
            n,
            sym,
        ) == renumbered(old, n, 2),
        n != 0 && (sym != seq!['B'] && sym != seq!['T'] && sym != seq!['L'] && sym != seq!['Q'] && sym != seq!['I']
            && sym != seq!['/'] || last_index_of(old, '-') < 0) ==> spec_new_tile_name(old, n, sym) == if last_index_of(
            old,
            '.',
        ) < 0 {
            seq!['N', 'u', 'l', 'l']
        } else {
            old.take(last_index_of(old, '.')) + seq!['-'] + decimal(n as nat) + old.skip(last_index_of(old, '.'))
        },
{    assert(seq!['I'] != seq!['B']) by {
        assert(seq!['I'][0] != seq!['B'][0]);
    }
    assert(seq!['I'] != seq!['T']) by {
        assert(seq!['I'][0] != seq!['T'][0]);
    }
    assert(seq!['I'] != seq!['L']) by {
        assert(seq!['I'][0] != seq!['L'][0]);
    }
    assert(seq!['I'] != seq!['Q']) by {
        assert(seq!['I'][0] != seq!['Q'][0]);
    }
    assert(seq!['/'] != seq!['B']) by {
        assert(seq!['/'][0] != seq!['B'][0]);
    }
    assert(seq!['/'] != seq!['T']) by {
        assert(seq!['/'][0] != seq!['T'][0]);
    }
    assert(seq!['/'] != seq!['L']) by {
        assert(seq!['/'][0] != seq!['L'][0]);
    }
    assert(seq!['/'] != seq!['Q']) by {
        assert(seq!['/'][0] != seq!['Q'][0]);
    }
}

} // verus!
