use vstd::prelude::*;
use vstd::string::StringSliceAdditionalSpecFns;

verus! {

/// An engagement event on an item, with its time in minutes since the epoch.
#[derive(Debug, Clone, Copy, PartialEq, Eq, Structural)]
pub struct Comment {
    pub id: u32,
    pub date: i64,
}

/// A chapter number: the whole part and one decimal digit. Chapter numbers
/// order by whole part, then by decimal digit.
#[derive(Debug, Clone, Copy, PartialEq, Eq, Structural, PartialOrd, Ord, Hash)]
pub struct ChapterNo(pub u32, pub u32);

/// Why a chapter code could not be read.
#[derive(Debug, Clone, Copy, PartialEq, Eq, Structural)]
pub enum ChapterNoError {
    /// Fewer than two bytes.
    TooShort,
    /// The bytes between the first and the last are not a number that fits in `u32`.
    BadNumber,
    /// The last byte is not a decimal digit.
    BadDecimal,
}

pub open spec fn is_digit(c: u8) -> bool {
    48 <= c <= 57
}

/// The first `k` bytes are all decimal digits.
pub open spec fn digits_upto(b: Seq<u8>, k: int) -> bool
    decreases k,
{
    k <= 0 || (digits_upto(b, k - 1) && is_digit(b[k - 1]))
}

/// The decimal value of the first `k` bytes, read as digits.
pub open spec fn value_upto(b: Seq<u8>, k: int) -> int
    decreases k,
{
    if k <= 0 {
        0
    } else {
        value_upto(b, k - 1) * 10 + (b[k - 1] - 48)
    }
}

/// The bytes of a number after an optional leading `+`.
pub open spec fn unsigned_digits(b: Seq<u8>) -> Seq<u8> {
    if b.len() > 0 && b[0] == 43 {
        b.drop_first()
    } else {
        b
    }
}

/// A decimal `u32`, with an optional leading `+`, as `str::parse` reads one.
pub open spec fn parsed_u32(b: Seq<u8>) -> Option<u32> {
    let d = unsigned_digits(b);
    if d.len() > 0 && digits_upto(d, d.len() as int) && value_upto(d, d.len() as int) <= u32::MAX {
        Some(value_upto(d, d.len() as int) as u32)
    } else {
        None
    }
}

/// A chapter code: one leading byte, the whole part, and the decimal digit last.
pub open spec fn chapter_code(b: Seq<u8>) -> Result<ChapterNo, ChapterNoError> {
    if b.len() < 2 {
        Err(ChapterNoError::TooShort)
    } else {
        match parsed_u32(b.subrange(1, b.len() - 1)) {
            None => Err(ChapterNoError::BadNumber),
            Some(n) => if is_digit(b.last()) {
                Ok(ChapterNo(n, (b.last() - 48) as u32))
            } else {
                Err(ChapterNoError::BadDecimal)
            },
        }
    }
}

proof fn lemma_value_grows(b: Seq<u8>, j: int, k: int)
    requires
        0 <= j <= k <= b.len(),
        digits_upto(b, k),
    ensures
        0 <= value_upto(b, j) <= value_upto(b, k),
        digits_upto(b, j),
    decreases k - j,
{
    if j < k {
        lemma_value_grows(b, j, k - 1);
    } else {
        lemma_value_nonneg(b, k);
    }
}

proof fn lemma_value_nonneg(b: Seq<u8>, k: int)
    requires
        0 <= k <= b.len(),
        digits_upto(b, k),
    ensures
        value_upto(b, k) >= 0,
    decreases k,
{
    if k > 0 {
        lemma_value_nonneg(b, k - 1);
    }
}

/// Reads a decimal `u32` with an optional leading `+`.
fn parse_u32(b: &[u8], from: usize, to: usize) -> (r: Option<u32>)
    requires
        from <= to <= b@.len(),
    ensures
        r == parsed_u32(b@.subrange(from as int, to as int)),
{
    let ghost whole = b@.subrange(from as int, to as int);
    let mut i = from;
    if i < to && b[i] == 43 {
        i = i + 1;
    }
    let ghost d = unsigned_digits(whole);
    assert(d =~= b@.subrange(i as int, to as int));
    if i == to {
        return None;
    }
    let mut value: u64 = 0;
    let mut k = i;
    while k < to
        invariant
            i <= k <= to <= b@.len(),
            from <= i,
            whole == b@.subrange(from as int, to as int),
            d == unsigned_digits(whole),
            d == b@.subrange(i as int, to as int),
            digits_upto(d, k - i),
            value == value_upto(d, k - i),
            value <= u32::MAX,
        decreases to - k,
    {
        let c = b[k];
        if c < 48 || c > 57 {
            assert(d[k - i] == c);
            proof {
                lemma_not_digits(d, k - i, d.len() as int);
            }
            return None;
        }
        assert(d[k - i] == c);
        value = value * 10 + (c - 48) as u64;
        k = k + 1;
        if value > u32::MAX as u64 {
            proof {
                if digits_upto(d, d.len() as int) {
                    lemma_value_grows(d, k - i, d.len() as int);
                }
            }
            return None;
        }
    }
    Some(value as u32)
}

proof fn lemma_not_digits(b: Seq<u8>, j: int, k: int)
    requires
        0 <= j < k <= b.len(),
        !is_digit(b[j]),
    ensures
        !digits_upto(b, k),
    decreases k - j,
{
    if j < k - 1 {
        lemma_not_digits(b, j, k - 1);
    }
}

impl ChapterNo {
    /// Reads a chapter number from its integer code: a leading digit to drop,
    /// the whole part and the decimal digit last.
    pub fn from_int(chapter: u32) -> (r: ChapterNo)
        ensures
            r == ChapterNo(
                ((chapter - chapter / 1000) / 10) as u32,
                ((chapter - chapter / 1000) % 10) as u32,
            ),
    {
        let chapter = chapter - (chapter / 1000);
        let odd = chapter % 10;
        ChapterNo(chapter / 10, odd)
    }

    /// Reads a chapter number from its text code: one leading byte, the whole
    /// part, and the decimal digit last.
    pub fn from_str(s: &str) -> (r: Result<ChapterNo, ChapterNoError>)
        ensures
            r == chapter_code(s.spec_bytes()),
    {
        let b = s.as_bytes();
        let n = b.len();
        if n < 2 {
            return Err(ChapterNoError::TooShort);
        }
        match parse_u32(b, 1, n - 1) {
            None => Err(ChapterNoError::BadNumber),
            Some(whole) => {
                let last = b[n - 1];
                if 48 <= last && last <= 57 {
                    Ok(ChapterNo(whole, (last - 48) as u32))
                } else {
                    Err(ChapterNoError::BadDecimal)
                }
            },
        }
    }
}

/// An update event of an item, with its time in minutes since the epoch.
#[derive(Debug, Clone, Copy, PartialEq, Eq, Structural)]
pub struct Chapter {
    pub chap_no: ChapterNo,
    pub date: i64,
}

/// An item: its updates, its engagement events and its subscriber count.
#[derive(Debug, Clone)]
pub struct Manga {
    pub name: String,
    pub chapters: Vec<Chapter>,
    pub subs: usize,
    pub comments: Vec<Comment>,
}

} // verus!
