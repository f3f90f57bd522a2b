//! The decisions of the background tasks: parsing a refresh-interval
//! message, handling one index-rebuild request, and enumerating the drive
//! roots a full refresh walks. The surrounding threads, channels and file
//! writes live outside the library and hand plain values in and out.
use vstd::prelude::*;

verus! {

use crate::codec::{dec_path_list, enc_path_list};
use crate::search_engine::{Search, SearchEngine, spec_index_file_name};
use vstd::string::{StrSliceExecFns, StringExecFns};

/// An ASCII decimal digit.
pub open spec fn is_digit(c: char) -> bool {
    48 <= c as u32 <= 57
}

/// The numeric value of a digit character.
pub open spec fn digit_val(c: char) -> int {
    c as u32 - 48
}

/// Every character of `s` is a decimal digit.
pub open spec fn all_digits(s: Seq<char>) -> bool {
    forall|i: int| 0 <= i < s.len() ==> is_digit(#[trigger] s[i])
}

/// The number the digit string `s` denotes, most significant first.
pub open spec fn digits_val(s: Seq<char>) -> int
    decreases s.len(),
{
    if s.len() == 0 {
        0
    } else {
        digits_val(s.drop_last()) * 10 + digit_val(s.last())
    }
}

/// What parsing `s` as a u64 yields: an optional leading plus sign, then at
/// least one digit, denoting a value that fits.
pub open spec fn spec_parse_u64(s: Seq<char>) -> Option<u64> {
    let ds = if s.len() > 0 && s[0] == '+' {
        s.drop_first()
    } else {
        s
    };
    if ds.len() > 0 && all_digits(ds) && digits_val(ds) <= u64::MAX {
        Some(digits_val(ds) as u64)
    } else {
        None
    }
}

/// A digit string denotes a non-negative number.
pub proof fn lemma_digits_val_nonneg(s: Seq<char>)
    requires
        all_digits(s),
    ensures
        digits_val(s) >= 0,
    decreases s.len(),
{
    if s.len() > 0 {
        assert forall|i: int| 0 <= i < s.len() - 1 implies is_digit(#[trigger] s.drop_last()[i]) by {
            assert(s.drop_last()[i] == s[i]);
        }
        lemma_digits_val_nonneg(s.drop_last());
        assert(is_digit(s.last()));
    }
}

/// A digit string denotes at least what any of its prefixes denotes.
pub proof fn lemma_digits_val_mono(s: Seq<char>, k: int)
    requires
        all_digits(s),
        0 <= k <= s.len(),
    ensures
        digits_val(s.take(k)) <= digits_val(s),
    decreases s.len(),
{
    if k == s.len() {
        assert(s.take(k) =~= s);
    } else {
        assert forall|i: int| 0 <= i < s.len() - 1 implies is_digit(#[trigger] s.drop_last()[i]) by {
            assert(s.drop_last()[i] == s[i]);
        }
        lemma_digits_val_mono(s.drop_last(), k);
        assert(s.take(k) =~= s.drop_last().take(k));
        lemma_digits_val_nonneg(s.drop_last());
        assert(is_digit(s.last()));
        assert(digits_val(s.drop_last()) * 10 >= digits_val(s.drop_last()));
    }
}

/// Parses a refresh-interval message: the number of seconds it spells, or
/// `prev` when it does not spell a number that fits in a u64.
pub fn parse_update_time(update_time_s: &str, prev: u64) -> (r: u64)
    ensures
        r == match spec_parse_u64(update_time_s@) {
            Some(v) => v,
            None => prev,
        },
{
    let n = update_time_s.unicode_len();
    let mut start: usize = 0;
    if n > 0 {
        let c0 = update_time_s.get_char(0);
        if c0 == '+' {
            start = 1;
        }
    }
    let ghost ds = if start == 1 {
        update_time_s@.drop_first()
    } else {
        update_time_s@
    };
    proof {
        assert forall|k: int| 0 <= k < ds.len() implies ds[k] == update_time_s@[k
            + start] by {}
    }
    if n == start {
        return prev;
    }
    let mut acc: u64 = 0;
    let mut i = start;
    proof {
        assert(ds.take(0) =~= Seq::<char>::empty());
    }
    while i < n
        invariant
            start <= i <= n,
            start <= 1,
            n == update_time_s@.len(),
            ds == (if update_time_s@.len() > 0 && update_time_s@[0] == '+' {
                update_time_s@.drop_first()
            } else {
                update_time_s@
            }),
            ds.len() == n - start,
            forall|k: int| 0 <= k < ds.len() ==> #[trigger] ds[k] == update_time_s@[k + start],
            all_digits(ds.take(i - start)),
            acc == digits_val(ds.take(i - start)),
        decreases n - i,
    {
        let c = update_time_s.get_char(i);
        let u = c as u32;
        let ghost k = i - start;
        proof {
            assert(ds[k] == c);
            assert(ds.take(k + 1).drop_last() =~= ds.take(k));
            assert(ds.take(k + 1).last() == ds[k]);
        }
        if !(48 <= u && u <= 57) {
            proof {
                assert(!is_digit(ds[k]));
                assert(!all_digits(ds));
            }
            return prev;
        }
        let d = (u - 48) as u64;
        let step = match acc.checked_mul(10) {
            Some(x) => x.checked_add(d),
            None => None,
        };
        match step {
            Some(y) => {
                acc = y;
                proof {
                    assert forall|q: int| 0 <= q < k + 1 implies is_digit(
                        #[trigger] ds.take(k + 1)[q],
                    ) by {
                        assert(ds.take(k + 1)[q] == ds[q]);
                        if q < k {
                            assert(ds.take(k)[q] == ds[q]);
                        }
                    }
                    assert(digits_val(ds.take(k + 1)) == acc);
                }
            },
            None => {
                proof {
                    assert(digits_val(ds.take(k + 1)) > u64::MAX);
                    if all_digits(ds) {
                        lemma_digits_val_mono(ds, k + 1);
                    }
                }
                return prev;
            },
        }
        i += 1;
    }
    proof {
        assert(ds.take(n - start) =~= ds);
    }
    acc
}

/// One index-rebuild request, as the search thread performs it: point the
/// engine at the requested root, rebuild its index from the walk listing,
/// hand back the file name and bytes to persist, and release the in-memory
/// list once it is handed over.
pub fn process_search_request(engine: &mut Search, received: &str, entries: &Vec<String>) -> (r: (
    String,
    Vec<u8>,
))
    ensures
        final(engine).root_view() == received@,
        final(engine).files_view() == Seq::<Seq<char>>::empty(),
        r.0@ == spec_index_file_name(received@),
        r.1@ == enc_path_list(entries.deep_view()),
        dec_path_list(r.1@) == Some(entries.deep_view()),
{
    engine.set_root_dir(String::from_str(received));
    engine.generate_index(entries);
    let r = engine.save_index();
    let empty: Vec<String> = Vec::new();
    proof {
        assert(empty.deep_view() =~= Seq::<Seq<char>>::empty());
    }
    engine.generate_index(&empty);
    r
}

/// The roots a full refresh walks: one per drive letter, `A:\` through
/// `Z:\`, in order. The caller crawls each and hands the listing to
/// `process_search_request`.
pub fn update_all_drives() -> (r: Vec<String>)
    ensures
        r.deep_view().len() == 26,
        forall|i: int|
            0 <= i < 26 ==> #[trigger] r.deep_view()[i] == seq![
                ((65 + i) as u8) as char,
                ':',
                '\\',
            ],
{
    let mut r: Vec<String> = Vec::new();
    let mut b: u8 = 65;
    while b <= 90
        invariant
            65 <= b <= 91,
            r.deep_view().len() == b - 65,
            forall|i: int|
                0 <= i < b - 65 ==> #[trigger] r.deep_view()[i] == seq![
                    ((65 + i) as u8) as char,
                    ':',
                    '\\',
                ],
        decreases 91 - b,
    {
        let mut name = String::new();
        name.push(b as char);
        name.push(':');
        name.push('\\');
        proof {
            assert(name@ =~= seq![b as char, ':', '\\']);
        }
        let ghost before = r.deep_view();
        r.push(name);
        proof {
            assert(r.deep_view() =~= before.push(seq![b as char, ':', '\\']));
        }
        b += 1;
    }
    r
}

} // verus!
