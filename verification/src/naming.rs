//! Naming helpers: extracting the model stem from a resource identifier,
//! turning arbitrary identifiers into legal field names, and maintaining
//! the numeric suffix that keeps generated names distinct.

use vstd::prelude::*;

use crate::text::dec_str;
use crate::text::find_char;
use crate::text::find_char_spec;
use crate::text::is_ascii_alnum;
use crate::text::is_ascii_alpha;
use crate::text::is_ascii_digit;
use crate::text::lemma_find_char_spec;
use crate::text::ascii_alnum;
use crate::text::ascii_alpha;
use crate::text::ascii_digit;
use crate::text::push_char;

verus! {

/// The stem of a resource identifier: what remains after the namespace
/// prefix up to `:` and every path segment up to the last `/` beyond it
/// have been peeled off, peeling repeatedly exactly as the extractor does.
pub open spec fn stem_of(s: Seq<char>) -> Seq<char>
    decreases s.len(),
{
    let f0 = find_char_spec(s, ':');
    let fs: int = if f0 == -1 {
        0
    } else {
        f0
    };
    let r0 = find_char_spec(s.subrange(fs, s.len() as int), '/');
    let ss: int = (if r0 == -1 {
        0
    } else {
        r0
    }) + fs;
    if ss <= 0 {
        s
    } else if ss < s.len() {
        stem_of(s.subrange(ss + 1, s.len() as int))
    } else {
        Seq::empty()
    }
}

/// Peels the namespace and directory prefixes off a resource identifier,
/// leaving the file stem it names.
pub fn mcid_to_stem<'a>(id: &'a str) -> (r: &'a str)
    ensures
        r@ == stem_of(id@),
    decreases id@.len(),
{
    let n = id.unicode_len();
    let file_start: usize = match find_char(id, ':') {
        Some(i) => i,
        None => 0,
    };
    proof {
        lemma_find_char_spec(id@, ':');
    }
    let tail = id.substring_char(file_start, n);
    let rel: usize = match find_char(tail, '/') {
        Some(i) => i,
        None => 0,
    };
    proof {
        lemma_find_char_spec(tail@, '/');
    }
    let stem_start = rel + file_start;
    if stem_start > 0 {
        mcid_to_stem(id.substring_char(stem_start + 1, n))
    } else {
        let r = id.substring_char(0, n);
        proof {
            assert(r@ =~= id@);
        }
        r
    }
}

/// The field name an identifier turns into: the first character must be a
/// letter or becomes `n`; every later character must be a letter or digit
/// or becomes `_`.
pub open spec fn fieldified(s: Seq<char>) -> Seq<char> {
    Seq::new(
        s.len(),
        |i: int|
            if i == 0 {
                if is_ascii_alpha(s[0]) {
                    s[0]
                } else {
                    'n'
                }
            } else {
                if is_ascii_alnum(s[i]) {
                    s[i]
                } else {
                    '_'
                }
            },
    )
}

/// Make an arbitrary string a valid Java field name.
pub fn fieldify(s: &str) -> (r: String)
    ensures
        r@ == fieldified(s@),
{
    let n = s.unicode_len();
    let mut result = String::new();
    let mut i: usize = 0;
    while i < n
        invariant
            n == s@.len(),
            i <= n,
            result@ == fieldified(s@).subrange(0, i as int),
        decreases n - i,
    {
        let c = s.get_char(i);
        let out: char = if i == 0 {
            if ascii_alpha(c) {
                c
            } else {
                'n'
            }
        } else {
            if ascii_alnum(c) {
                c
            } else {
                '_'
            }
        };
        push_char(&mut result, out);
        proof {
            assert(fieldified(s@).subrange(0, i + 1 as int) =~= fieldified(s@).subrange(
                0,
                i as int,
            ).push(out));
        }
        i = i + 1;
    }
    proof {
        assert(fieldified(s@).subrange(0, n as int) =~= fieldified(s@));
    }
    result
}

/// A variant suffix sits at `k`: an `_`, then an `F`, then at least one
/// digit running to the end of the name.
pub open spec fn is_variant_suffix_at(s: Seq<char>, k: int) -> bool {
    &&& 1 <= k
    &&& k + 1 < s.len()
    &&& s[k] == 'F'
    &&& s[k - 1] == '_'
    &&& forall|j: int| k < j < s.len() ==> is_ascii_digit(s[j])
}

/// The name ends in a variant suffix `_F<digits>`.
pub open spec fn has_variant_suffix(s: Seq<char>) -> bool {
    exists|k: int| is_variant_suffix_at(s, k)
}

/// The position of the variant suffix, where one exists.
pub open spec fn variant_suffix_pos(s: Seq<char>) -> int {
    choose|k: int| is_variant_suffix_at(s, k)
}

/// A name carries at most one variant suffix.
pub proof fn lemma_variant_suffix_unique(s: Seq<char>, k: int)
    requires
        is_variant_suffix_at(s, k),
    ensures
        variant_suffix_pos(s) == k,
{
    let k2 = variant_suffix_pos(s);
    assert(is_variant_suffix_at(s, k2));
    if k2 < k {
        assert(is_ascii_digit(s[k]));
        assert(false);
    }
    if k < k2 {
        assert(is_ascii_digit(s[k2]));
        assert(false);
    }
}

/// The number a digit string denotes, most significant digit first.
pub open spec fn digits_val(ds: Seq<char>) -> int
    decreases ds.len(),
{
    if ds.len() == 0 {
        0
    } else {
        digits_val(ds.drop_last()) * 10 + (ds.last() as u32 - 48)
    }
}

/// A string of digits denotes a number no smaller than any of its prefixes.
proof fn lemma_digits_val_prefix_le(ds: Seq<char>, i: int)
    requires
        0 <= i <= ds.len(),
        forall|j: int| 0 <= j < ds.len() ==> is_ascii_digit(ds[j]),
    ensures
        0 <= digits_val(ds.subrange(0, i)) <= digits_val(ds),
    decreases ds.len() - i,
{
    if i == ds.len() {
        assert(ds.subrange(0, i) =~= ds);
        lemma_digits_val_nonneg(ds);
    } else {
        lemma_digits_val_prefix_le(ds, i + 1);
        let p = ds.subrange(0, i + 1);
        assert(p.drop_last() =~= ds.subrange(0, i));
        assert(p.last() == ds[i]);
        assert forall|j: int| 0 <= j < ds.subrange(0, i).len() implies is_ascii_digit(
            #[trigger] ds.subrange(0, i)[j],
        ) by {
            assert(ds.subrange(0, i)[j] == ds[j]);
        }
        lemma_digits_val_nonneg(ds.subrange(0, i));
        assert(is_ascii_digit(ds[i]));
        assert(digits_val(p) == digits_val(ds.subrange(0, i)) * 10 + (ds[i] as u32 - 48));
    }
}

/// A string of digits denotes a non-negative number.
proof fn lemma_digits_val_nonneg(ds: Seq<char>)
    requires
        forall|j: int| 0 <= j < ds.len() ==> is_ascii_digit(ds[j]),
    ensures
        digits_val(ds) >= 0,
    decreases ds.len(),
{
    if ds.len() > 0 {
        assert forall|j: int| 0 <= j < ds.drop_last().len() implies is_ascii_digit(
            #[trigger] ds.drop_last()[j],
        ) by {
            assert(ds.drop_last()[j] == ds[j]);
        }
        lemma_digits_val_nonneg(ds.drop_last());
        assert(is_ascii_digit(ds[ds.len() - 1]));
        assert(ds.last() == ds[ds.len() - 1]);
    }
}

/// Whether the name ends in a variant suffix `_F<digits>`. The extractor
/// never looks at the first character, so an empty name is excluded.
pub fn ends_with_variant_index(s: &str) -> (r: bool)
    requires
        s@.len() >= 1,
    ensures
        r == has_variant_suffix(s@),
{
    let n = s.unicode_len();
    let mut numbers = false;
    let mut idx: usize = 0;
    while idx < n - 1
        invariant
            n == s@.len(),
            1 <= n <= usize::MAX,
            idx <= n - 1,
            numbers == (idx > 0),
            forall|j: int| n - 1 - idx < j < n ==> is_ascii_digit(s@[j]),
        decreases n - idx,
    {
        let i = n - 1 - idx;
        let c = s.get_char(i);
        if ascii_digit(c) {
            numbers = true;
        } else if numbers && c == 'F' {
            let und = s.get_char(i - 1) == '_';
            proof {
                if und {
                    assert(is_variant_suffix_at(s@, i as int));
                } else {
                    if has_variant_suffix(s@) {
                        let k = choose|k: int| is_variant_suffix_at(s@, k);
                        if k < i {
                            assert(is_ascii_digit(s@[i as int]));
                        } else if k > i {
                            assert(is_ascii_digit(s@[k]));
                        }
                        assert(false);
                    }
                }
            }
            return und;
        } else {
            proof {
                if has_variant_suffix(s@) {
                    let k = choose|k: int| is_variant_suffix_at(s@, k);
                    if k < i {
                        assert(is_ascii_digit(s@[i as int]));
                    } else if k > i {
                        assert(is_ascii_digit(s@[k]));
                    } else {
                        assert(idx == 0);
                        assert(k + 1 < n);
                    }
                    assert(false);
                }
            }
            return false;
        }
        idx = idx + 1;
    }
    proof {
        if has_variant_suffix(s@) {
            let k = choose|k: int| is_variant_suffix_at(s@, k);
            assert(is_ascii_digit(s@[k]));
            assert(false);
        }
    }
    false
}

/// Advances the numeric variant suffix of a name: the digits after the
/// final `_F` are replaced by the decimal rendering of their value plus
/// one. The value must stay below the extractor's working range.
pub fn increment_variant_index(ss: &mut String)
    requires
        has_variant_suffix(old(ss)@),
        digits_val(
            old(ss)@.subrange(variant_suffix_pos(old(ss)@) + 1, old(ss)@.len() as int),
        ) < 0x7fff_ffff,
    ensures
        final(ss)@ == old(ss)@.subrange(0, variant_suffix_pos(old(ss)@) + 1) + dec_str(
            (digits_val(
                old(ss)@.subrange(variant_suffix_pos(old(ss)@) + 1, old(ss)@.len() as int),
            ) + 1) as nat,
        ),
{
    let ghost k = variant_suffix_pos(old(ss)@);
    proof {
        assert(is_variant_suffix_at(old(ss)@, k));
    }
    let s: &str = ss.as_str();
    let n = s.unicode_len();
    let mut p: usize = n;
    while p > 1 && ascii_digit(s.get_char(p - 1))
        invariant
            s@ == old(ss)@,
            n == s@.len(),
            is_variant_suffix_at(s@, k),
            k + 1 <= p <= n,
        decreases p,
    {
        p = p - 1;
    }
    proof {
        assert(p == k + 1) by {
            if p > k + 1 {
                assert(is_ascii_digit(s@[p - 1]));
            }
        }
    }
    let ghost run = s@.subrange(k + 1, n as int);
    proof {
        assert forall|j: int| 0 <= j < run.len() implies is_ascii_digit(#[trigger] run[j]) by {
            assert(run[j] == s@[k + 1 + j]);
        }
    }
    let mut val: u32 = 0;
    let mut i: usize = p;
    while i < n
        invariant
            s@ == old(ss)@,
            n == s@.len(),
            is_variant_suffix_at(s@, k),
            p == k + 1,
            p <= i <= n,
            run == s@.subrange(k + 1, n as int),
            forall|j: int| 0 <= j < run.len() ==> is_ascii_digit(#[trigger] run[j]),
            val == digits_val(run.subrange(0, i - p)),
            digits_val(run) < 0x7fff_ffff,
        decreases n - i,
    {
        let c = s.get_char(i);
        proof {
            assert(run[i - p] == s@[i as int]);
            assert(is_ascii_digit(c));
            let pre = run.subrange(0, i - p + 1);
            assert(pre.drop_last() =~= run.subrange(0, i - p));
            assert(pre.last() == run[i - p]);
            lemma_digits_val_prefix_le(run, i - p + 1);
        }
        val = val * 10 + (c as u32 - 48);
        i = i + 1;
    }
    proof {
        assert(run.subrange(0, n - p as int) =~= run);
    }
    let prefix = s.substring_char(0, p);
    let mut out = crate::text::decimal_string(val + 1);
    let mut rebuilt = String::new();
    rebuilt.append(prefix);
    rebuilt.append(out.as_str());
    proof {
        assert(Seq::<char>::empty() + prefix@ =~= prefix@);
    }
    *ss = rebuilt;
}

} // verus!
