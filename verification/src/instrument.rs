//! The text that surrounds an instrumented run: a banner with the run's
//! title, the report of its time and memory, and a separator.

use vstd::prelude::*;
use vstd::string::*;

use crate::text::push_char;

verus! {

/// `n` copies of `c`.
pub open spec fn fill(c: char, n: nat) -> Seq<char> {
    Seq::new(n, |i: int| c)
}

/// `s` centred in `width` columns with `c` as the fill: the padding is split
/// in two, the extra column (if any) going to the right; text at least as
/// wide as `width` is left as it is.
pub open spec fn centered(s: Seq<char>, width: nat, c: char) -> Seq<char> {
    if s.len() >= width {
        s
    } else {
        let pad = (width - s.len()) as nat;
        fill(c, pad / 2) + s + fill(c, ((pad + 1) / 2) as nat)
    }
}

/// Centred text is `width` columns wide (or the text itself when it is
/// wider), and the text stands in it unchanged, after half the padding.
pub proof fn lemma_centered_shape(s: Seq<char>, width: nat, c: char)
    ensures
        centered(s, width, c).len() == if s.len() >= width {
            s.len()
        } else {
            width
        },
        ({
            let left: int = if s.len() >= width {
                0
            } else {
                ((width - s.len()) / 2) as int
            };
            centered(s, width, c).subrange(left, left + s.len()) == s
        }),
{
    if s.len() < width {
        let pad = (width - s.len()) as nat;
        let left = fill(c, pad / 2);
        let right = fill(c, ((pad + 1) / 2) as nat);
        assert((left + s + right).subrange(left.len() as int, (left.len() + s.len()) as int) == s);
    } else {
        assert(s.subrange(0, s.len() as int) == s);
    }
}

fn push_fill(out: &mut String, c: char, n: usize)
    ensures
        final(out)@ == old(out)@ + fill(c, n as nat),
{
    let mut k: usize = 0;
    while k < n
        invariant
            k <= n,
            out@ == old(out)@ + fill(c, k as nat),
        decreases n - k,
    {
        push_char(out, c);
        assert(fill(c, (k + 1) as nat) == fill(c, k as nat).push(c));
        k = k + 1;
    }
}

/// `s` centred in `width` columns (see `centered`), as `{:^width}` writes it.
pub fn pad_center(s: &str, width: usize, c: char) -> (r: String)
    ensures
        r@ == centered(s@, width as nat, c),
{
    let len = s.unicode_len();
    if len >= width {
        return String::from_str(s);
    }
    let pad = width - len;
    let mut r = String::new();
    push_fill(&mut r, c, pad / 2);
    r.append(s);
    push_fill(&mut r, c, pad - pad / 2);
    assert(pad - pad / 2 == (pad + 1) / 2);
    r
}

/// The width of the banner.
pub const BANNER_WIDTH: usize = 50;

/// The banner that opens an instrumented run: a line of `=`, the title
/// centred between two `|`, and a line of `=`, each ending with a newline.
pub open spec fn banner_text(title: Seq<char>) -> Seq<char> {
    fill('=', BANNER_WIDTH as nat) + seq!['\n'] + seq!['|'] + centered(title, (BANNER_WIDTH - 2) as nat, ' ')
        + seq!['|', '\n'] + fill('=', BANNER_WIDTH as nat) + seq!['\n']
}

/// The banner that opens an instrumented run (see `banner_text`).
pub fn instrument_banner(title: &str) -> (r: String)
    ensures
        r@ == banner_text(title@),
{
    let mut r = String::new();
    push_fill(&mut r, '=', BANNER_WIDTH);
    push_char(&mut r, '\n');
    push_char(&mut r, '|');
    let t = pad_center(title, BANNER_WIDTH - 2, ' ');
    r.append(t.as_str());
    push_char(&mut r, '|');
    push_char(&mut r, '\n');
    push_fill(&mut r, '=', BANNER_WIDTH);
    push_char(&mut r, '\n');
    r
}

/// The text that `humansize` writes for a number of bytes in binary units.
pub uninterp spec fn binary_size_text(bytes: usize) -> Seq<char>;

/// A number of bytes in binary units (`humansize::format_size` with
/// `humansize::BINARY`).
/// Claimed: the text is a function of the number alone.
#[verifier::external_body]
fn binary_size(bytes: usize) -> (r: String)
    ensures
        r@ == binary_size_text(bytes),
{
    humansize::format_size(bytes, humansize::BINARY)
}

/// The report that closes an instrumented run: the time it took (as the
/// caller shows it) and the memory it kept, allocated minus freed.
pub open spec fn report_text(elapsed: Seq<char>, allocated: usize, deallocated: usize) -> Seq<char> {
    report_lines(elapsed, binary_size_text((allocated - deallocated) as usize))
}

/// The report for a run that took `elapsed` and kept `size` of memory, both
/// as shown to the reader.
pub open spec fn report_lines(elapsed: Seq<char>, size: Seq<char>) -> Seq<char> {
    "elapsed: "@ + elapsed + "\nused memory: "@ + size + "\n"@
}

/// The report for a run, given the time and the memory as shown to the
/// reader (see `report_lines`).
pub fn report_text_of(elapsed: &str, size: &str) -> (r: String)
    ensures
        r@ == report_lines(elapsed@, size@),
{
    let mut r = String::from_str("elapsed: ");
    r.append(elapsed);
    r.append("\nused memory: ");
    r.append(size);
    r.append("\n");
    r
}

/// The report that closes an instrumented run (see `report_text`); the run
/// cannot have freed more than it allocated.
pub fn instrument_report(elapsed: &str, allocated: usize, deallocated: usize) -> (r: String)
    requires
        deallocated <= allocated,
    ensures
        r@ == report_text(elapsed@, allocated, deallocated),
{
    let size = binary_size(allocated - deallocated);
    report_text_of(elapsed, size.as_str())
}

/// The width of the separator.
pub const SEPARATOR_WIDTH: usize = 80;

/// Two empty lines, a line of `-`, and two more newlines.
pub open spec fn separator_text() -> Seq<char> {
    seq!['\n', '\n'] + fill('-', SEPARATOR_WIDTH as nat) + seq!['\n', '\n']
}

/// The separator between parts of a run (see `separator_text`).
pub fn separator() -> (r: String)
    ensures
        r@ == separator_text(),
{
    let mut r = String::new();
    push_char(&mut r, '\n');
    push_char(&mut r, '\n');
    push_fill(&mut r, '-', SEPARATOR_WIDTH);
    push_char(&mut r, '\n');
    push_char(&mut r, '\n');
    r
}

} // verus!
