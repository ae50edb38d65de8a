//! What the table shows: the tone that each status is drawn in, and the
//! padding of the framed package heading.
use vstd::prelude::*;
use crate::dump::{records_view, DexOptInfo, RecordView};
use crate::text::{chars_equal, chars_of, find_char_from, string_of_range};

verus! {

/// The colour family a status line is drawn in.
#[derive(Clone, Copy, Debug, PartialEq, Eq, Structural)]
pub enum Tone {
    Green,
    Yellow,
    Blue,
    Red,
    Magenta,
    White,
}

pub open spec fn speed_profile() -> Seq<char> {
    seq!['s', 'p', 'e', 'e', 'd', '-', 'p', 'r', 'o', 'f', 'i', 'l', 'e']
}

pub open spec fn speed() -> Seq<char> {
    seq!['s', 'p', 'e', 'e', 'd']
}

pub open spec fn verify() -> Seq<char> {
    seq!['v', 'e', 'r', 'i', 'f', 'y']
}

pub open spec fn quicken() -> Seq<char> {
    seq!['q', 'u', 'i', 'c', 'k', 'e', 'n']
}

pub open spec fn run_from_apk() -> Seq<char> {
    seq!['r', 'u', 'n', '-', 'f', 'r', 'o', 'm', '-', 'a', 'p', 'k']
}

pub open spec fn error() -> Seq<char> {
    seq!['e', 'r', 'r', 'o', 'r']
}

pub open spec fn everything() -> Seq<char> {
    seq!['e', 'v', 'e', 'r', 'y', 't', 'h', 'i', 'n', 'g']
}

/// The tone of a status: the fully compiled ones green, `verify` yellow,
/// `quicken` blue, failures red, `everything` magenta, anything else white.
pub open spec fn tone_of(status: Seq<char>) -> Tone {
    if status == speed_profile() || status == speed() {
        Tone::Green
    } else if status == verify() {
        Tone::Yellow
    } else if status == quicken() {
        Tone::Blue
    } else if status == run_from_apk() || status == error() {
        Tone::Red
    } else if status == everything() {
        Tone::Magenta
    } else {
        Tone::White
    }
}

/// The tone that a line with this status is drawn in.
pub fn status_tone(status: &str) -> (r: Tone)
    ensures
        r == tone_of(status@),
{
    let s = chars_of(status);
    let speed_profile_v: Vec<char> = vec![
        's', 'p', 'e', 'e', 'd', '-', 'p', 'r', 'o', 'f', 'i', 'l', 'e',
    ];
    let speed_v: Vec<char> = vec!['s', 'p', 'e', 'e', 'd'];
    let verify_v: Vec<char> = vec!['v', 'e', 'r', 'i', 'f', 'y'];
    let quicken_v: Vec<char> = vec!['q', 'u', 'i', 'c', 'k', 'e', 'n'];
    let run_from_apk_v: Vec<char> = vec!['r', 'u', 'n', '-', 'f', 'r', 'o', 'm', '-', 'a', 'p', 'k'];
    let error_v: Vec<char> = vec!['e', 'r', 'r', 'o', 'r'];
    let everything_v: Vec<char> = vec!['e', 'v', 'e', 'r', 'y', 't', 'h', 'i', 'n', 'g'];
    assert(speed_profile_v@ =~= speed_profile());
    assert(speed_v@ =~= speed());
    assert(verify_v@ =~= verify());
    assert(quicken_v@ =~= quicken());
    assert(run_from_apk_v@ =~= run_from_apk());
    assert(error_v@ =~= error());
    assert(everything_v@ =~= everything());
    if chars_equal(&s, &speed_profile_v) || chars_equal(&s, &speed_v) {
        Tone::Green
    } else if chars_equal(&s, &verify_v) {
        Tone::Yellow
    } else if chars_equal(&s, &quicken_v) {
        Tone::Blue
    } else if chars_equal(&s, &run_from_apk_v) || chars_equal(&s, &error_v) {
        Tone::Red
    } else if chars_equal(&s, &everything_v) {
        Tone::Magenta
    } else {
        Tone::White
    }
}

/// Whether a status line is drawn in bold as well: only `error` is.
pub fn is_emphasised(status: &str) -> (r: bool)
    ensures
        r == (status@ == error()),
{
    let error_v: Vec<char> = vec!['e', 'r', 'r', 'o', 'r'];
    assert(error_v@ =~= error());
    chars_equal(&chars_of(status), &error_v)
}

/// The narrowest inner width of a package heading's frame.
pub const MIN_FRAME_WIDTH: usize = 40;

/// The frame of a package heading whose text is `text_len` columns wide: the
/// inner width (the text plus four, and no less than the minimum), then the
/// padding left and right of the text, the left half rounded down.
pub fn frame_padding(text_len: usize) -> (r: (usize, usize, usize))
    requires
        text_len <= usize::MAX - 4,
    ensures
        r.0 == if text_len + 4 > MIN_FRAME_WIDTH {
            text_len + 4
        } else {
            MIN_FRAME_WIDTH as int
        },
        r.1 == (r.0 - text_len) / 2,
        r.2 == r.0 - text_len - r.1,
{
    let width = if text_len + 4 > MIN_FRAME_WIDTH {
        text_len + 4
    } else {
        MIN_FRAME_WIDTH
    };
    let space = width - text_len;
    let left = space / 2;
    (width, left, space - left)
}

/// The padding that centres a text `text_len` columns wide in `width`
/// columns: left, then right, the left half rounded down.
pub fn centre_padding(width: usize, text_len: usize) -> (r: (usize, usize))
    requires
        text_len <= width,
    ensures
        r.0 == (width - text_len) / 2,
        r.0 + text_len + r.1 == width,
{
    let left = (width - text_len) / 2;
    (left, width - text_len - left)
}

/// The widest prefix before the first `:` among the record lines, which the
/// lines are aligned to; 0 where no line has a `:`.
pub open spec fn colon_width(recs: Seq<RecordView>) -> nat
    decreases recs.len(),
{
    if recs.len() == 0 {
        0
    } else {
        let w = colon_width(recs.drop_last());
        match find_char_from(recs.last().0, ':', 0) {
            Some(i) => if i > w {
                i as nat
            } else {
                w
            },
            None => w,
        }
    }
}

/// `raw` with its part before the first `:` padded with spaces to `width`
/// characters; unchanged where it has no `:`.
pub open spec fn aligned_line(raw: Seq<char>, width: nat) -> Seq<char> {
    match find_char_from(raw, ':', 0) {
        Some(i) => raw.subrange(0, i) + Seq::new(
            if width > i {
                (width - i) as nat
            } else {
                0
            },
            |k: int| ' ',
        ) + raw.subrange(i, raw.len() as int),
        None => raw,
    }
}

fn first_colon(v: &Vec<char>) -> (r: Option<usize>)
    ensures
        match r {
            Some(i) => find_char_from(v@, ':', 0) == Some(i as int) && i < v@.len(),
            None => find_char_from(v@, ':', 0) is None,
        },
{
    let mut i: usize = 0;
    while i < v.len()
        invariant
            i <= v@.len(),
            find_char_from(v@, ':', i as int) == find_char_from(v@, ':', 0),
        decreases v@.len() - i,
    {
        if v[i] == ':' {
            return Some(i);
        }
        i = i + 1;
    }
    None
}

/// The column that the record lines of one package are aligned to.
pub fn record_colon_width(records: &Vec<DexOptInfo>) -> (r: usize)
    ensures
        r == colon_width(records_view(records@)),
{
    let ghost recs = records_view(records@);
    let mut w: usize = 0;
    let mut k: usize = 0;
    assert(recs.subrange(0, 0) =~= Seq::<RecordView>::empty());
    while k < records.len()
        invariant
            k <= records@.len(),
            recs == records_view(records@),
            w == colon_width(recs.subrange(0, k as int)),
        decreases records@.len() - k,
    {
        assert(recs.subrange(0, k + 1).drop_last() =~= recs.subrange(0, k as int));
        let line = chars_of(records[k].raw_line.as_str());
        match first_colon(&line) {
            Some(i) => {
                if i > w {
                    w = i;
                }
            },
            None => {},
        }
        k = k + 1;
    }
    assert(recs.subrange(0, k as int) =~= recs);
    w
}

/// `raw` with the part before its first `:` padded with spaces to `width`.
pub fn align_record_line(raw: &str, width: usize) -> (r: String)
    ensures
        r@ == aligned_line(raw@, width as nat),
{
    let v = chars_of(raw);
    match first_colon(&v) {
        Some(i) => {
            let mut out: Vec<char> = Vec::new();
            let mut k: usize = 0;
            while k < i
                invariant
                    k <= i < v@.len(),
                    out@ == v@.subrange(0, k as int),
                decreases i - k,
            {
                assert(v@.subrange(0, k + 1) =~= v@.subrange(0, k as int).push(v@[k as int]));
                out.push(v[k]);
                k = k + 1;
            }
            let pad: usize = if width > i {
                width - i
            } else {
                0
            };
            let mut m: usize = 0;
            while m < pad
                invariant
                    m <= pad,
                    i < v@.len(),
                    out@ == v@.subrange(0, i as int) + Seq::new(m as nat, |j: int| ' '),
                decreases pad - m,
            {
                assert(v@.subrange(0, i as int) + Seq::new((m + 1) as nat, |j: int| ' ') =~= (
                v@.subrange(0, i as int) + Seq::new(m as nat, |j: int| ' ')).push(' '));
                out.push(' ');
                m = m + 1;
            }
            let ghost head = out@;
            let mut j: usize = i;
            while j < v.len()
                invariant
                    i <= j <= v@.len(),
                    out@ == head + v@.subrange(i as int, j as int),
                decreases v@.len() - j,
            {
                assert(head + v@.subrange(i as int, j + 1) =~= (head + v@.subrange(
                    i as int,
                    j as int,
                )).push(v@[j as int]));
                out.push(v[j]);
                j = j + 1;
            }
            assert(out@.subrange(0, out@.len() as int) =~= out@);
            assert(out@ =~= aligned_line(raw@, width as nat));
            string_of_range(&out, 0, out.len())
        },
        None => {
            assert(v@.subrange(0, v@.len() as int) =~= v@);
            string_of_range(&v, 0, v.len())
        },
    }
}

} // verus!
