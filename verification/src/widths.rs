//! The widths at which a document is rendered to pixels: a list given as
//! text overrides the built-in one.

use crate::number::{
    all_digits, digits_value, is_digit, lemma_digits_value_grows, natural_text, push_natural,
};
use crate::text::{chars_of, push_text, split_whitespace, texts_of, tokens};
use vstd::prelude::*;

verus! {

/// The built-in widths, widest first.
pub open spec fn default_widths() -> Seq<u32> {
    seq![3840u32, 2560u32, 1920u32, 1280u32, 800u32, 400u32, 200u32, 100u32]
}

/// The digits of a token: what follows its `+` sign, if it has one.
pub open spec fn width_digits(t: Seq<char>) -> Seq<char> {
    if t.len() > 0 && t[0] == '+' {
        t.drop_first()
    } else {
        t
    }
}

/// The width that a token denotes: decimal digits, optionally after `+`,
/// whose value fits 32 bits.
pub open spec fn parsed_width(t: Seq<char>) -> Option<u32> {
    let d = width_digits(t);
    if d.len() > 0 && all_digits(d) && digits_value(d) <= u32::MAX {
        Some(digits_value(d) as u32)
    } else {
        None
    }
}

/// The widths among the tokens, in order; a token that denotes none is
/// passed over.
pub open spec fn listed_widths(ts: Seq<Seq<char>>) -> Seq<u32>
    decreases ts.len(),
{
    if ts.len() == 0 {
        Seq::empty()
    } else {
        match parsed_width(ts.last()) {
            Some(w) => listed_widths(ts.drop_last()).push(w),
            None => listed_widths(ts.drop_last()),
        }
    }
}

/// The widths to render at: those listed in the setting, or the built-in
/// ones where there is no setting or it lists none.
pub open spec fn chosen_widths(setting: Option<Seq<char>>) -> Seq<u32> {
    match setting {
        Some(s) => if listed_widths(tokens(s)).len() > 0 {
            listed_widths(tokens(s))
        } else {
            default_widths()
        },
        None => default_widths(),
    }
}

/// Reads one width.
pub fn parse_width(token: &str) -> (r: Option<u32>)
    ensures
        r == parsed_width(token@),
{
    let v = chars_of(token);
    let n = v.len();
    let start: usize = if n > 0 && v[0] == '+' {
        1
    } else {
        0
    };
    let ghost d = width_digits(v@);
    assert(d =~= v@.skip(start as int));
    if start == n {
        return None;
    }
    let mut value: u64 = 0;
    let mut i: usize = start;
    while i < n
        invariant
            start <= i <= n,
            n == v.len(),
            v@ == token@,
            d == v@.skip(start as int),
            d == width_digits(v@),
            all_digits(d.take(i - start)),
            value == digits_value(d.take(i - start)),
            value <= u32::MAX,
        decreases n - i,
    {
        let c = v[i];
        assert(d[i - start] == c);
        if !('0' <= c && c <= '9') {
            assert(!is_digit(d[i - start]));
            return None;
        }
        proof {
            assert(d.take(i - start + 1).drop_last() =~= d.take(i - start));
            assert(d.take(i - start + 1).last() == c);
            assert forall|j: int| 0 <= j < i - start + 1 implies is_digit(
                #[trigger] d.take(i - start + 1)[j],
            ) by {
                if j < i - start {
                    assert(d.take(i - start + 1)[j] == d.take(i - start)[j]);
                }
            }
        }
        value = value * 10 + (c as u32 - 48) as u64;
        i += 1;
        if value > u32::MAX as u64 {
            proof {
                if all_digits(d) {
                    lemma_digits_value_grows(d, i - start);
                }
            }
            return None;
        }
    }
    assert(d.take(i - start) =~= d);
    Some(value as u32)
}

/// The widths to render at. `setting` is the text that overrides the
/// built-in list, if there is one: widths separated by whitespace.
pub fn widths(setting: Option<&str>) -> (out: Vec<u32>)
    ensures
        out@ == chosen_widths(
            match setting {
                Some(s) => Some(s@),
                None => None,
            },
        ),
{
    let mut out: Vec<u32> = Vec::new();
    match setting {
        Some(s) => {
            let parts = split_whitespace(s);
            let ghost ts = tokens(s@);
            let mut i: usize = 0;
            assert(ts.take(0) =~= Seq::<Seq<char>>::empty());
            while i < parts.len()
                invariant
                    i <= parts.len(),
                    texts_of(parts@) == ts,
                    out@ == listed_widths(ts.take(i as int)),
                decreases parts.len() - i,
            {
                assert(ts[i as int] == parts@[i as int]@);
                assert(ts.take(i + 1).drop_last() =~= ts.take(i as int));
                assert(ts.take(i + 1).last() == ts[i as int]);
                match parse_width(parts[i].as_str()) {
                    Some(w) => {
                        out.push(w);
                    },
                    None => {},
                }
                i += 1;
            }
            assert(ts.take(parts.len() as int) =~= ts);
        },
        None => {},
    }
    if out.len() == 0 {
        out.push(3840);
        out.push(2560);
        out.push(1920);
        out.push(1280);
        out.push(800);
        out.push(400);
        out.push(200);
        out.push(100);
        assert(out@ =~= default_widths());
    }
    out
}

/// The name of the file that holds a rendering of `width` by `height`
/// pixels: the prefix, the size, and a mark where the ground is transparent.
pub open spec fn png_name_text(prefix: Seq<char>, width: u32, height: u32, transparent: bool) -> Seq<
    char,
> {
    prefix + "-"@ + natural_text(width as int) + "x"@ + natural_text(height as int) + (
    if transparent {
        "-transparent.png"@
    } else {
        ".png"@
    })
}

/// Names the file for a rendering.
pub fn png_name(prefix: &str, width: u32, height: u32, transparent: bool) -> (name: String)
    ensures
        name@ == png_name_text(prefix@, width, height, transparent),
{
    let mut name = String::new();
    push_text(&mut name, prefix);
    assert(name@ =~= prefix@);
    push_text(&mut name, "-");
    push_natural(&mut name, width as u64);
    push_text(&mut name, "x");
    push_natural(&mut name, height as u64);
    if transparent {
        push_text(&mut name, "-transparent.png");
    } else {
        push_text(&mut name, ".png");
    }
    name
}

} // verus!
