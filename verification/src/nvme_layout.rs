//! Where the model lies on its disk, as the build environment says.

use crate::text;
use crate::text::push_dec;
use vstd::prelude::*;

verus! {

/// Bytes of the model where nothing else is said: 584 GiB.
pub const DEFAULT_MODEL_BYTES: u64 = 627_065_225_216;

/// Where the model lies.
#[derive(Clone, Copy, Debug, PartialEq, Eq, Structural)]
pub struct NvmeLayout {
    pub bytes: u64,
    pub lba_offset: u64,
}

pub open spec fn is_digit(c: char) -> bool {
    '0' <= c <= '9'
}

pub open spec fn all_digits(s: Seq<char>) -> bool {
    forall|i: int| 0 <= i < s.len() ==> is_digit(#[trigger] s[i])
}

/// The digits of a number: all but a plus sign in front.
pub open spec fn digits_of(s: Seq<char>) -> Seq<char> {
    if s.len() > 0 && s[0] == '+' {
        s.skip(1)
    } else {
        s
    }
}

/// The number that a text holds: digits, at least one, perhaps with a plus sign
/// in front, and not too large.
pub open spec fn number_of(s: Seq<char>) -> Option<u64> {
    let d = digits_of(s);
    if d.len() > 0 && all_digits(d) && text::dec_value(d) <= u64::MAX {
        Some(text::dec_value(d) as u64)
    } else {
        None
    }
}

proof fn lemma_value_grows(d: Seq<char>, n: int)
    requires
        all_digits(d),
        0 <= n <= d.len(),
    ensures
        0 <= text::dec_value(d.take(n)) <= text::dec_value(d),
    decreases d.len(),
{
    if n < d.len() {
        let less = d.drop_last();
        assert(all_digits(less));
        lemma_value_grows(less, n);
        assert(less.take(n) =~= d.take(n));
        assert(is_digit(d[d.len() - 1]));
    } else {
        assert(d.take(n) =~= d);
        if d.len() > 0 {
            let less = d.drop_last();
            assert(all_digits(less));
            lemma_value_grows(less, less.len() as int);
            assert(less.take(less.len() as int) =~= less);
            assert(is_digit(d[d.len() - 1]));
        }
    }
}

fn digit_value(c: char) -> (v: Option<u64>)
    ensures
        v is Some <==> is_digit(c),
        v matches Some(n) ==> n == c as int - 48 && n < 10,
{
    if '0' <= c && c <= '9' {
        Some(c as u64 - 48)
    } else {
        None
    }
}

/// Reads a number.
pub fn parse_number(s: &str) -> (r: Option<u64>)
    ensures
        r == number_of(s@),
{
    let n: usize = s.unicode_len();
    let ghost d = digits_of(s@);
    let mut start: usize = 0;
    if n > 0 {
        if s.get_char(0) == '+' {
            start = 1;
        }
    }
    if start >= n {
        return None;
    }
    let mut value: u64 = 0;
    let mut i: usize = start;
    assert(d.take(0).len() == 0);
    while i < n
        invariant
            start <= i <= n,
            n == s@.len(),
            start == 0 || start == 1,
            d == digits_of(s@),
            d.len() == n - start,
            forall|j: int| start <= j < n ==> #[trigger] s@[j] == d[j - start],
            all_digits(d.take(i - start)),
            value == text::dec_value(d.take(i - start)),
        decreases n - i,
    {
        let ghost k = i - start;
        let c: char = s.get_char(i);
        assert(c == d[k]);
        assert(d.take(k + 1).drop_last() =~= d.take(k));
        match digit_value(c) {
            None => {
                assert(!is_digit(d[k]));
                return None;
            },
            Some(v) => {
                let next: Option<u64> = match value.checked_mul(10) {
                    Some(t) => t.checked_add(v),
                    None => None,
                };
                match next {
                    Some(t) => {
                        value = t;
                    },
                    None => {
                        proof {
                            if all_digits(d) {
                                lemma_value_grows(d, k + 1);
                            }
                        }
                        return None;
                    },
                }
            },
        }
        i = i + 1;
        assert(all_digits(d.take(i - start))) by {
            assert forall|j: int| 0 <= j < k + 1 implies is_digit(
                #[trigger] d.take(k + 1)[j],
            ) by {
                if j < k {
                    assert(d.take(k)[j] == d[j]);
                    assert(is_digit(d.take(k)[j]));
                }
            }
        }
    }
    assert(d.take(d.len() as int) =~= d);
    Some(value)
}

/// The first of two settings, if it is there; else the second.
pub open spec fn setting(first: Option<Seq<char>>, second: Option<Seq<char>>) -> Option<u64> {
    match first {
        Some(s) => number_of(s),
        None => match second {
            Some(s) => number_of(s),
            None => None,
        },
    }
}

fn read_setting(first: Option<&str>, second: Option<&str>) -> (r: Option<u64>)
    ensures
        r == setting(
            match first {
                Some(s) => Some(s@),
                None => None,
            },
            match second {
                Some(s) => Some(s@),
                None => None,
            },
        ),
{
    match first {
        Some(s) => parse_number(s),
        None => match second {
            Some(s) => parse_number(s),
            None => None,
        },
    }
}

/// The layout by the settings: a size that is missing, unreadable or zero is the
/// default, and an offset that is missing or unreadable is zero.
pub open spec fn layout_of(bytes: Option<u64>, lba: Option<u64>) -> NvmeLayout {
    NvmeLayout {
        bytes: match bytes {
            Some(n) => if n > 0 {
                n
            } else {
                DEFAULT_MODEL_BYTES
            },
            None => DEFAULT_MODEL_BYTES,
        },
        lba_offset: match lba {
            Some(n) => n,
            None => 0,
        },
    }
}

/// The two constants as source text.
pub open spec fn layout_source(l: NvmeLayout) -> Seq<char> {
    "pub const KIMI_K26_NVME_BYTES: usize = "@ + text::dec(l.bytes as nat)
        + "usize;\npub const KIMI_K26_NVME_LBA_OFFSET: u64 = "@ + text::dec(l.lba_offset as nat)
        + "u64;\n"@
}

/// The layout by the settings, and its source text. Each setting has an older
/// name that counts where the newer is not set.
pub fn emit_kimi_nvme_layout(
    bytes: Option<&str>,
    bytes_older: Option<&str>,
    lba: Option<&str>,
    lba_older: Option<&str>,
) -> (r: (NvmeLayout, String))
    ensures
        r.0 == layout_of(
            setting(
                match bytes {
                    Some(s) => Some(s@),
                    None => None,
                },
                match bytes_older {
                    Some(s) => Some(s@),
                    None => None,
                },
            ),
            setting(
                match lba {
                    Some(s) => Some(s@),
                    None => None,
                },
                match lba_older {
                    Some(s) => Some(s@),
                    None => None,
                },
            ),
        ),
        r.0.bytes > 0,
        r.1@ == layout_source(r.0),
{
    let size: u64 = match read_setting(bytes, bytes_older) {
        Some(n) => if n > 0 {
            n
        } else {
            DEFAULT_MODEL_BYTES
        },
        None => DEFAULT_MODEL_BYTES,
    };
    let offset: u64 = match read_setting(lba, lba_older) {
        Some(n) => n,
        None => 0,
    };
    let mut source = "pub const KIMI_K26_NVME_BYTES: usize = ".to_owned();
    push_dec(&mut source, size);
    source.append("usize;\npub const KIMI_K26_NVME_LBA_OFFSET: u64 = ");
    push_dec(&mut source, offset);
    source.append("u64;\n");
    (NvmeLayout { bytes: size, lba_offset: offset }, source)
}

/// A printed number reads back as the number.
pub proof fn lemma_number_reads_back(n: u64)
    ensures
        number_of(text::dec(n as nat)) == Some(n),
{
    text::lemma_dec_reads_back(n as nat);
    lemma_dec_digits(n as nat);
    let d = text::dec(n as nat);
    assert(is_digit(d[0]));
}

proof fn lemma_dec_digits(n: nat)
    ensures
        all_digits(text::dec(n)),
    decreases n,
{
    if n >= 10 {
        lemma_dec_digits(n / 10);
        let less = text::dec(n / 10);
        let d = text::dec(n);
        assert forall|i: int| 0 <= i < d.len() implies is_digit(#[trigger] d[i]) by {
            if i < less.len() {
                assert(d[i] == less[i]);
            }
        }
    }
}

} // verus!
