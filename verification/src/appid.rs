//! Stable app ids from display names.

use crate::text::{
    cat3, chars_of, check_digit, check_lower, decimal, decimal_digits, decimal_injective,
    decimal_len, decimal_text, distinct_within, is_digit, is_lower, same, ten_to, text_of,
    text_range, trim, trimmed,
};
use vstd::prelude::*;
use vstd::string::*;

verus! {

/// How many characters a generated id has at most.
pub const MAX_ID_LEN: usize = 64;

/// A character that an id may hold.
pub open spec fn is_id_char(c: char) -> bool {
    is_lower(c) || is_digit(c) || c == '-' || c == '_'
}

/// Whether `id` is not empty and holds only lower-case letters, digits, `-`
/// and `_`.
pub open spec fn is_valid_id(id: Seq<char>) -> bool {
    id.len() > 0 && forall|i: int| 0 <= i < id.len() ==> is_id_char(#[trigger] id[i])
}

/// Whether `id` is not empty and holds only lower-case letters, digits, `-`
/// and `_`.
pub fn valid_id(id: &str) -> (r: bool)
    ensures
        r == is_valid_id(id@),
{
    let v = chars_of(id);
    if v.len() == 0 {
        return false;
    }
    let mut i: usize = 0;
    while i < v.len()
        invariant
            i <= v@.len(),
            v@ == id@,
            forall|k: int| 0 <= k < i ==> is_id_char(#[trigger] id@[k]),
        decreases v@.len() - i,
    {
        let c = v[i];
        if !(check_lower(c) || check_digit(c) || c == '-' || c == '_') {
            assert(!is_id_char(id@[i as int]));
            return false;
        }
        i = i + 1;
    }
    true
}

/// What `str::to_lowercase` makes of a text.
pub uninterp spec fn lowercase(s: Seq<char>) -> Seq<char>;

/// Calls `str::to_lowercase`, which lowers each character by the rules of
/// Unicode. Its result is named, not described.
#[verifier::external_body]
fn to_lower(s: &str) -> (r: String)
    ensures
        r@ == lowercase(s@),
{
    s.to_lowercase()
}

/// A character that is kept in an id.
pub open spec fn is_kept(c: char) -> bool {
    is_lower(c) || is_digit(c)
}

/// Whether `id` looks as generated ids do: it starts with a lower-case letter or a
/// digit, and holds only these and `-`.
pub open spec fn is_generated(id: Seq<char>) -> bool {
    &&& id.len() > 0
    &&& is_kept(id[0])
    &&& forall|i: int| 0 <= i < id.len() ==> is_kept(#[trigger] id[i]) || id[i] == '-'
}

/// The kept characters of `s`, with one `-` in place of each run of others
/// between them.
pub open spec fn slug(s: Seq<char>) -> Seq<char>
    decreases s.len(),
{
    if s.len() == 0 {
        Seq::empty()
    } else {
        let head = slug(s.drop_last());
        if !is_kept(s.last()) {
            head
        } else if head.len() > 0 && !is_kept(s[s.len() - 2]) {
            head.push('-').push(s.last())
        } else {
            head.push(s.last())
        }
    }
}

/// The id before conflicts are looked at: the slug, cut to the greatest length,
/// or `app` where there is none.
pub open spec fn base_id(lowered: Seq<char>) -> Seq<char> {
    let s = slug(lowered);
    if s.len() == 0 {
        "app"@
    } else if s.len() > MAX_ID_LEN {
        s.take(MAX_ID_LEN as int)
    } else {
        s
    }
}

/// The `k`-th id that is tried: the base itself, then the base with `-2`, `-3`
/// and so on, cut so that the whole fits.
pub open spec fn candidate_id(base: Seq<char>, k: nat) -> Seq<char> {
    if k <= 1 {
        base
    } else {
        let suffix = seq!['-'] + decimal(k);
        let keep = if suffix.len() >= MAX_ID_LEN {
            0
        } else {
            MAX_ID_LEN - suffix.len()
        };
        (if base.len() > keep {
            base.take(keep)
        } else {
            base
        }) + suffix
    }
}

/// Whether the `k`-th candidate is the first that is not taken.
pub open spec fn first_free_at(base: Seq<char>, existing: Seq<Seq<char>>, k: nat) -> bool {
    &&& k >= 1
    &&& !existing.contains(candidate_id(base, k))
    &&& forall|j: nat| 1 <= j < k ==> existing.contains(#[trigger] candidate_id(base, j))
}

/// Whether `id` is the first candidate for `base` that is not taken.
pub open spec fn is_first_free(base: Seq<char>, existing: Seq<Seq<char>>, id: Seq<char>) -> bool {
    exists|k: nat| #[trigger] first_free_at(base, existing, k) && id == candidate_id(base, k)
}

/// The contents of each string slice.
pub open spec fn str_texts(list: Seq<&str>) -> Seq<Seq<char>> {
    list.map_values(|s: &str| s@)
}

fn slug_of(lowered: &str) -> (r: Vec<char>)
    ensures
        r@ == slug(lowered@),
{
    let v = chars_of(lowered);
    let mut r: Vec<char> = Vec::new();
    let mut i: usize = 0;
    while i < v.len()
        invariant
            i <= v@.len(),
            v@ == lowered@,
            r@ == slug(lowered@.take(i as int)),
            r@.len() <= 2 * i,
        decreases v@.len() - i,
    {
        let c = v[i];
        assert(lowered@.take(i + 1).drop_last() =~= lowered@.take(i as int));
        if check_lower(c) || check_digit(c) {
            if r.len() > 0 && !(check_lower(v[i - 1]) || check_digit(v[i - 1])) {
                r.push('-');
            }
            r.push(c);
        }
        i = i + 1;
    }
    assert(lowered@.take(i as int) =~= lowered@);
    r
}

fn id_taken(existing_ids: &[&str], id: &str) -> (r: bool)
    ensures
        r == str_texts(existing_ids@).contains(id@),
{
    let mut i: usize = 0;
    while i < existing_ids.len()
        invariant
            i <= existing_ids@.len(),
            forall|k: int| 0 <= k < i ==> str_texts(existing_ids@)[k] != id@,
        decreases existing_ids@.len() - i,
    {
        if same(existing_ids[i], id) {
            assert(str_texts(existing_ids@)[i as int] == id@);
            return true;
        }
        i = i + 1;
    }
    false
}

proof fn lemma_slug_chars(s: Seq<char>)
    ensures
        slug(s).len() > 0 ==> is_generated(slug(s)),
    decreases s.len(),
{
    if s.len() > 0 {
        let head = slug(s.drop_last());
        lemma_slug_chars(s.drop_last());
        assert forall|i: int| 0 <= i < slug(s).len() implies is_kept(#[trigger] slug(s)[i]) || slug(
            s,
        )[i] == '-' by {
            if i < head.len() {
                assert(slug(s)[i] == head[i]);
            }
        }
        if head.len() > 0 {
            assert(slug(s)[0] == head[0]);
        }
    }
}

/// Where the last `-` stands tells the number of a candidate.
proof fn lemma_candidates_differ(base: Seq<char>, j: nat, k: nat)
    requires
        2 <= j,
        2 <= k,
        candidate_id(base, j) == candidate_id(base, k),
    ensures
        j == k,
{
    let a = candidate_id(base, j);
    decimal_digits(j);
    decimal_digits(k);
    let n = a.len();
    let dj = decimal(j);
    let dk = decimal(k);
    assert(a.skip(n - dj.len()) =~= dj);
    assert(a.skip(n - dk.len()) =~= dk);
    assert(a[n - dj.len() - 1] == '-');
    assert(a[n - dk.len() - 1] == '-');
    if dj.len() < dk.len() {
        assert(dk[dk.len() - dj.len() - 1] == a[n - dj.len() - 1]);
        assert(is_digit(dk[dk.len() - dj.len() - 1]));
    } else if dk.len() < dj.len() {
        assert(dj[dj.len() - dk.len() - 1] == a[n - dk.len() - 1]);
        assert(is_digit(dj[dj.len() - dk.len() - 1]));
    }
    decimal_injective(j, k);
}

/// When the candidates before `k` are all taken there are at least `k - 2` ids.
proof fn lemma_taken_count(base: Seq<char>, existing: Seq<Seq<char>>, k: nat)
    requires
        k >= 2,
        forall|j: nat| 1 <= j < k ==> existing.contains(#[trigger] candidate_id(base, j)),
    ensures
        k - 2 <= existing.len(),
{
    let some = Seq::new((k - 2) as nat, |i: int| candidate_id(base, (i + 2) as nat));
    assert(some.no_duplicates()) by {
        assert forall|i: int, j: int|
            0 <= i < some.len() && 0 <= j < some.len() && i != j implies some[i] != some[j] by {
            if some[i] == some[j] {
                lemma_candidates_differ(base, (i + 2) as nat, (j + 2) as nat);
            }
        }
    }
    distinct_within(some, existing);
}

/// A candidate looks as generated ids do where its base does and, for a number of
/// few digits, is no longer than an id may be.
proof fn lemma_candidate_shape(base: Seq<char>, k: nat)
    requires
        is_generated(base),
        base.len() <= MAX_ID_LEN,
        k < ten_to(20),
    ensures
        is_generated(candidate_id(base, k)),
        candidate_id(base, k).len() <= MAX_ID_LEN,
{
    let id = candidate_id(base, k);
    decimal_digits(k);
    decimal_len(k, 20);
    assert(id[0] == base[0]);
}

proof fn lemma_base_shape(lowered: Seq<char>)
    ensures
        is_generated(base_id(lowered)),
        base_id(lowered).len() <= MAX_ID_LEN,
{
    lemma_slug_chars(lowered);
    reveal_strlit("app");
}

/// The id for a name that is trimmed and in lower case: its slug, or the first
/// of the numbered variants that is not among `existing_ids`.
pub fn app_id_from_lowered(lowered: &str, existing_ids: &[&str]) -> (r: String)
    ensures
        is_first_free(base_id(lowered@), str_texts(existing_ids@), r@),
        is_valid_id(r@),
        is_generated(r@),
        r@.len() <= MAX_ID_LEN,
{
    let s = slug_of(lowered);
    let base: Vec<char> = if s.len() == 0 {
        chars_of("app")
    } else if s.len() > MAX_ID_LEN {
        chars_of(text_range(&s, 0, MAX_ID_LEN).as_str())
    } else {
        s
    };
    let ghost existing = str_texts(existing_ids@);
    proof {
        assert(base@ =~= base_id(lowered@));
        lemma_base_shape(lowered@);
        reveal_with_fuel(ten_to, 21);
    }
    let total: usize = existing_ids.len();
    let mut id = text_of(&base);
    let mut k: u128 = 1;
    while id_taken(existing_ids, id.as_str())
        invariant
            1 <= k <= total + 2,
            total == existing_ids@.len(),
            existing == str_texts(existing_ids@),
            base@ == base_id(lowered@),
            is_generated(base@),
            base@.len() <= MAX_ID_LEN,
            ten_to(20) == 100_000_000_000_000_000_000nat,
            id@ == candidate_id(base@, k as nat),
            forall|j: nat| 1 <= j < k ==> existing.contains(#[trigger] candidate_id(base@, j)),
        decreases total + 3 - k,
    {
        let ghost before = k;
        assert(existing.contains(candidate_id(base@, before as nat)));
        k = k + 1;
        proof {
            assert forall|j: nat| 1 <= j < k implies existing.contains(
                #[trigger] candidate_id(base@, j),
            ) by {
                if j == before {
                }
            }
            lemma_taken_count(base@, existing, k as nat);
            decimal_digits(k as nat);
            decimal_len(k as nat, 20);
        }
        let number = decimal_text(k);
        let digits: usize = number.as_str().unicode_len();
        let keep: usize = MAX_ID_LEN - 1 - digits;
        let head = if base.len() > keep {
            text_range(&base, 0, keep)
        } else {
            text_of(&base)
        };
        id = cat3(head.as_str(), "-", number.as_str());
        proof {
            reveal_strlit("-");
            assert("-"@ =~= seq!['-']);
            assert(id@ =~= candidate_id(base@, k as nat));
        }
    }
    proof {
        assert(first_free_at(base@, existing, k as nat));
        lemma_candidate_shape(base@, k as nat);
    }
    id
}

/// Generate a stable app id from a display name.
///
/// The name is trimmed and put in lower case; every run of characters outside
/// `[a-z0-9]` collapses to a single `-`; leading and trailing `-` are removed;
/// an empty result falls back to `app`; the result is cut to 64 characters and
/// then, while it is among `existing_ids`, tried with `-2`, `-3`, ... at its
/// end.
///
/// An app that is edited keeps its id: call this for new apps only.
pub fn generate_app_id(name: &str, existing_ids: &[&str]) -> (r: String)
    ensures
        is_first_free(base_id(lowercase(trimmed(name@))), str_texts(existing_ids@), r@),
        is_valid_id(r@),
        is_generated(r@),
        r@.len() <= MAX_ID_LEN,
        !str_texts(existing_ids@).contains(r@),
{
    let trimmed_name = trim(name);
    let lowered = to_lower(trimmed_name.as_str());
    app_id_from_lowered(lowered.as_str(), existing_ids)
}

// ---------------------------------------------------------------------------
// Laws
// ---------------------------------------------------------------------------

/// There is one first free candidate: the choice is determined by the base and
/// the ids that are taken.
pub proof fn first_free_is_unique(
    base: Seq<char>,
    existing: Seq<Seq<char>>,
    a: Seq<char>,
    b: Seq<char>,
)
    requires
        is_first_free(base, existing, a),
        is_first_free(base, existing, b),
    ensures
        a == b,
{
    let j = choose|j: nat| #[trigger] first_free_at(base, existing, j) && a == candidate_id(base, j);
    let k = choose|k: nat| #[trigger] first_free_at(base, existing, k) && b == candidate_id(base, k);
    if j < k {
        assert(existing.contains(candidate_id(base, j)));
    } else if k < j {
        assert(existing.contains(candidate_id(base, k)));
    }
}

/// A free base is taken as it is.
pub proof fn free_base_is_kept(base: Seq<char>, existing: Seq<Seq<char>>)
    requires
        !existing.contains(base),
    ensures
        is_first_free(base, existing, base),
{
    assert(first_free_at(base, existing, 1));
    assert(candidate_id(base, 1) == base);
}

/// The first free id for a name is valid, starts with a letter or a digit, holds
/// only these and `-`, is no longer than an id may be and is not taken, as long as
/// fewer ids than 10 to the power of 20 less 2 are.
pub proof fn first_free_is_generated(
    lowered: Seq<char>,
    existing: Seq<Seq<char>>,
    id: Seq<char>,
)
    requires
        is_first_free(base_id(lowered), existing, id),
        existing.len() + 2 < ten_to(20),
    ensures
        is_generated(id),
        is_valid_id(id),
        id.len() <= MAX_ID_LEN,
        !existing.contains(id),
{
    let base = base_id(lowered);
    let k = choose|k: nat| #[trigger] first_free_at(base, existing, k) && id == candidate_id(base, k);
    lemma_base_shape(lowered);
    if k >= 2 {
        lemma_taken_count(base, existing, k);
    } else {
        reveal_with_fuel(ten_to, 2);
    }
    lemma_candidate_shape(base, k);
}

/// A slug neither starts nor ends with `-`, nor does it hold two in a row.
pub proof fn slug_has_single_dashes(s: Seq<char>)
    ensures
        slug(s).len() > 0 ==> slug(s)[0] != '-' && slug(s).last() != '-',
        forall|i: int|
            0 < i < slug(s).len() && #[trigger] slug(s)[i] == '-' ==> slug(s)[i - 1] != '-',
    decreases s.len(),
{
    if s.len() > 0 {
        slug_has_single_dashes(s.drop_last());
    }
}

/// A word of lower-case letters and digits is its own slug.
pub proof fn slug_of_plain_word(s: Seq<char>)
    requires
        forall|i: int| 0 <= i < s.len() ==> is_kept(#[trigger] s[i]),
    ensures
        slug(s) == s,
    decreases s.len(),
{
    if s.len() > 0 {
        let t = s.drop_last();
        assert forall|i: int| 0 <= i < t.len() implies is_kept(#[trigger] t[i]) by {
            assert(t[i] == s[i]);
        }
        slug_of_plain_word(t);
        if t.len() > 0 {
            assert(is_kept(s[s.len() - 2]));
        }
        assert(t.push(s.last()) =~= s);
    } else {
        assert(s =~= Seq::empty());
    }
}

/// The lower-case letters and digits of a text, in order.
pub open spec fn kept_of(s: Seq<char>) -> Seq<char> {
    s.filter(|c: char| is_kept(c))
}

proof fn lemma_kept_push(s: Seq<char>, c: char)
    ensures
        kept_of(s.push(c)) == if is_kept(c) {
            kept_of(s).push(c)
        } else {
            kept_of(s)
        },
{
    reveal(Seq::filter);
    assert(s.push(c).drop_last() =~= s);
}

/// A slug keeps every lower-case letter and every digit, in order.
pub proof fn slug_keeps_letters_and_digits(s: Seq<char>)
    ensures
        kept_of(slug(s)) == kept_of(s),
    decreases s.len(),
{
    if s.len() > 0 {
        let rest = s.drop_last();
        slug_keeps_letters_and_digits(rest);
        let head = slug(rest);
        assert(s =~= rest.push(s.last()));
        lemma_kept_push(rest, s.last());
        lemma_kept_push(head, '-');
        lemma_kept_push(head, s.last());
        lemma_kept_push(head.push('-'), s.last());
    } else {
        assert(slug(s) =~= s);
    }
}

/// Characters that are not kept leave no trace at the start and at the end of a name;
/// between words there is one `-` in place of each run of them.
pub proof fn slug_puts_one_dash_between_words(x: Seq<char>, gap: Seq<char>, word: Seq<char>)
    requires
        gap.len() > 0,
        forall|i: int| 0 <= i < gap.len() ==> !is_kept(#[trigger] gap[i]),
        word.len() > 0,
        forall|i: int| 0 <= i < word.len() ==> is_kept(#[trigger] word[i]),
    ensures
        slug(x + gap) == slug(x),
        slug(x + gap + word) == if slug(x).len() > 0 {
            slug(x) + seq!['-'] + word
        } else {
            word
        },
    decreases word.len(),
{
    lemma_slug_gap(x, gap);
    let s = x + gap + word;
    let rest = word.drop_last();
    assert(s.drop_last() =~= x + gap + rest);
    assert(is_kept(word[word.len() - 1]));
    if rest.len() == 0 {
        assert(x + gap + rest =~= x + gap);
        assert(s[s.len() - 2] == gap[gap.len() - 1]);
        assert(word =~= seq![word.last()]);
        if slug(x).len() > 0 {
            assert(slug(s) =~= slug(x) + seq!['-'] + word);
        } else {
            assert(slug(s) =~= word);
        }
    } else {
        assert forall|i: int| 0 <= i < rest.len() implies is_kept(#[trigger] rest[i]) by {
            assert(rest[i] == word[i]);
        }
        slug_puts_one_dash_between_words(x, gap, rest);
        assert(s[s.len() - 2] == rest[rest.len() - 1]);
        assert(is_kept(rest[rest.len() - 1]));
        if slug(x).len() > 0 {
            assert(slug(s) =~= slug(x) + seq!['-'] + word);
        } else {
            assert(slug(s) =~= word);
        }
    }
}

proof fn lemma_slug_gap(x: Seq<char>, gap: Seq<char>)
    requires
        forall|i: int| 0 <= i < gap.len() ==> !is_kept(#[trigger] gap[i]),
    ensures
        slug(x + gap) == slug(x),
    decreases gap.len(),
{
    if gap.len() > 0 {
        let rest = gap.drop_last();
        assert forall|i: int| 0 <= i < rest.len() implies !is_kept(#[trigger] rest[i]) by {
            assert(rest[i] == gap[i]);
        }
        lemma_slug_gap(x, rest);
        assert((x + gap).drop_last() =~= x + rest);
        assert((x + gap).last() == gap[gap.len() - 1]);
    } else {
        assert(x + gap =~= x);
    }
}

/// The id before conflicts are looked at is the slug, which is cut only where it is
/// too long, and at its end; where nothing is left of a name it is `app`.
pub proof fn base_is_start_of_slug(lowered: Seq<char>)
    ensures
        slug(lowered).len() == 0 ==> base_id(lowered) == "app"@,
        0 < slug(lowered).len() <= 64 ==> base_id(lowered) == slug(lowered),
        slug(lowered).len() > 64 ==> base_id(lowered) == slug(lowered).take(64),
{
}

/// Where a base is taken, the ids that are tried are the base with `-` and a number
/// from 2 on behind it, one after the other. The base is cut only where the whole
/// would be too long, and no more than that.
pub proof fn candidates_are_numbered(base: Seq<char>, k: nat)
    requires
        2 <= k < ten_to(20),
        base.len() <= 64,
    ensures
        ({
            let id = candidate_id(base, k);
            let tail = seq!['-'] + decimal(k);
            let start = id.take(id.len() - tail.len());
            &&& id == start + tail
            &&& start == base.take(start.len() as int)
            &&& id.len() <= 64
            &&& id.len() < 64 ==> start == base
        }),
        candidate_id(base, 1) == base,
{
    decimal_len(k, 20);
    let id = candidate_id(base, k);
    let tail = seq!['-'] + decimal(k);
    let start = id.take(id.len() - tail.len());
    let keep = 64 - tail.len();
    if base.len() > keep {
        assert(id =~= base.take(keep) + tail);
        assert(start =~= base.take(keep));
    } else {
        assert(id =~= base + tail);
        assert(start =~= base);
        assert(base.take(base.len() as int) =~= base);
    }
    assert(id =~= start + tail);
}

/// Whether a character is one of `a` to `z`, `0` to `9`, `-` and `_`.
pub open spec fn is_plain_id_char(c: char) -> bool {
    'a' <= c <= 'z' || '0' <= c <= '9' || c == '-' || c == '_'
}

/// An id is valid where it is not empty and holds no other characters than `a` to `z`,
/// `0` to `9`, `-` and `_`. A generated one holds no `_` and does not start with `-`.
pub proof fn valid_ids_are_plain(id: Seq<char>)
    ensures
        is_valid_id(id) <==> id.len() > 0 && forall|i: int|
            0 <= i < id.len() ==> is_plain_id_char(#[trigger] id[i]),
        is_generated(id) <==> is_valid_id(id) && id[0] != '-' && !id.contains('_'),
{
    if is_valid_id(id) {
        assert forall|i: int| 0 <= i < id.len() implies is_plain_id_char(#[trigger] id[i]) by {
            assert(is_id_char(id[i]));
        }
    }
    if id.len() > 0 && forall|i: int| 0 <= i < id.len() ==> is_plain_id_char(#[trigger] id[i]) {
        assert forall|i: int| 0 <= i < id.len() implies is_id_char(#[trigger] id[i]) by {
            assert(is_plain_id_char(id[i]));
        }
    }
    if is_generated(id) {
        assert forall|i: int| 0 <= i < id.len() implies is_id_char(#[trigger] id[i]) && id[i] != '_' by {
            assert(is_kept(id[i]) || id[i] == '-');
        }
    }
    if is_valid_id(id) && id[0] != '-' && !id.contains('_') {
        assert forall|i: int| 0 <= i < id.len() implies is_kept(#[trigger] id[i]) || id[i] == '-' by {
            assert(is_id_char(id[i]));
            assert(id.contains(id[i]));
        }
        assert(is_kept(id[0]) || id[0] == '-');
    }
}

} // verus!
