use vstd::prelude::*;

verus! {

/// One line of a tree listing: indentation depth, kind, byte range, and whether it is a
/// token (listed with its text) or a rule.
pub struct OutlineLine<K> {
    pub depth: usize,
    pub kind: K,
    pub start: usize,
    pub end: usize,
    pub is_token: bool,
}

/// The decimal digit `d` as a character.
pub open spec fn digit_char(d: nat) -> char {
    seq!['0', '1', '2', '3', '4', '5', '6', '7', '8', '9'][d as int]
}

/// `n` written in decimal, without sign or leading zeros.
pub open spec fn decimal(n: nat) -> Seq<char>
    decreases n,
{
    if n < 10 {
        seq![digit_char(n)]
    } else {
        decimal(n / 10).push(digit_char(n % 10))
    }
}

/// The text that `Debug` gives for a string: the string quoted, with escapes.
pub uninterp spec fn debug_quoted(s: Seq<char>) -> Seq<char>;

/// `n` spaces.
pub open spec fn spaces(n: nat) -> Seq<char> {
    Seq::new(n, |i: int| ' ')
}

/// One line of a listing: `width` spaces, the kind's name, for a token its quoted text,
/// then the byte range in brackets and a line break.
pub open spec fn listing_line(
    width: nat,
    name: Seq<char>,
    quoted: Option<Seq<char>>,
    start: nat,
    end: nat,
) -> Seq<char> {
    let text = match quoted {
        Some(q) => seq![' '] + q,
        None => Seq::<char>::empty(),
    };
    spaces(width) + name + text + seq![' ', '['] + decimal(start) + seq!['.', '.'] + decimal(end)
        + seq![']', '\n']
}

/// The lines of a listing, one after the other.
pub open spec fn joined(lines: Seq<Seq<char>>) -> Seq<char>
    decreases lines.len(),
{
    if lines.len() == 0 {
        Seq::<char>::empty()
    } else {
        joined(lines.drop_last()) + lines.last()
    }
}

/// The text that `Debug` gives for a kind. Nothing is stated of it: `derive(Debug)` wrote
/// that impl.
#[verifier::external_body]
pub(crate) fn kind_text<D: core::fmt::Debug>(kind: &D) -> String {
    format!("{:?}", kind)
}

/// The text that `Debug` gives for a string: the string between double quotes, with
/// quotes, backslashes and special characters escaped (named, not written out).
#[verifier::external_body]
pub(crate) fn quoted_text(text: &str) -> (r: String)
    ensures
        r@ == debug_quoted(text@),
{
    format!("{:?}", text)
}

/// The decimal digit `d` as a one-character string.
fn digit_text(d: usize) -> (r: &'static str)
    requires
        d < 10,
    ensures
        r@ == seq![digit_char(d as nat)],
{
    proof {
        reveal_strlit("0");
        reveal_strlit("1");
        reveal_strlit("2");
        reveal_strlit("3");
        reveal_strlit("4");
        reveal_strlit("5");
        reveal_strlit("6");
        reveal_strlit("7");
        reveal_strlit("8");
        reveal_strlit("9");
    }
    let r = if d == 0 {
        "0"
    } else if d == 1 {
        "1"
    } else if d == 2 {
        "2"
    } else if d == 3 {
        "3"
    } else if d == 4 {
        "4"
    } else if d == 5 {
        "5"
    } else if d == 6 {
        "6"
    } else if d == 7 {
        "7"
    } else if d == 8 {
        "8"
    } else {
        "9"
    };
    assert(r@ =~= seq![digit_char(d as nat)]);
    r
}

/// `n` in decimal, as `Display` writes a number.
pub(crate) fn decimal_text(n: usize) -> (r: String)
    ensures
        r@ == decimal(n as nat),
    decreases n,
{
    if n < 10 {
        String::from_str(digit_text(n))
    } else {
        let mut s = decimal_text(n / 10);
        s.append(digit_text(n % 10));
        assert(s@ =~= decimal((n / 10) as nat).push(digit_char((n % 10) as nat)));
        s
    }
}

/// Appends `n` spaces to `out`.
fn push_spaces(out: &mut String, n: usize)
    ensures
        final(out)@ == old(out)@ + spaces(n as nat),
{
    let mut i: usize = 0;
    proof {
        reveal_strlit(" ");
        assert(old(out)@ + spaces(0) =~= old(out)@);
    }
    while i < n
        invariant
            i <= n,
            out@ == old(out)@ + spaces(i as nat),
            " "@ == seq![' '],
        decreases n - i,
    {
        out.append(" ");
        assert(old(out)@ + spaces(i as nat) + seq![' '] =~= old(out)@ + spaces((i + 1) as nat));
        i += 1;
    }
}

/// The text of one listing line (see `listing_line`).
pub(crate) fn line_text(width: usize, name: &str, quoted: Option<&str>, start: usize, end: usize) -> (r: String)
    ensures
        r@ == listing_line(
            width as nat,
            name@,
            match quoted {
                Some(q) => Some(q@),
                None => None,
            },
            start as nat,
            end as nat,
        ),
{
    proof {
        reveal_strlit(" ");
        reveal_strlit(" [");
        reveal_strlit("..");
        reveal_strlit("]\n");
    }
    let mut out = String::new();
    push_spaces(&mut out, width);
    out.append(name);
    match quoted {
        Some(q) => {
            out.append(" ");
            out.append(q);
        },
        None => {},
    }
    out.append(" [");
    let s = decimal_text(start);
    out.append(s.as_str());
    out.append("..");
    let e = decimal_text(end);
    out.append(e.as_str());
    out.append("]\n");
    let ghost text = match quoted {
        Some(q) => seq![' '] + q@,
        None => Seq::<char>::empty(),
    };
    assert(out@ =~= spaces(width as nat) + name@ + text + seq![' ', '['] + decimal(start as nat)
        + seq!['.', '.'] + decimal(end as nat) + seq![']', '\n']);
    out
}

} // verus!
