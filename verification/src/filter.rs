//! Pure filter logic for clipboard capture: allowlists, sensitive-MIME
//! detection, and size-cap enforcement.

use crate::text::{
    ascii_lower, before, chars_of, contains_substring, contains_text, find_char, has_no_margin,
    has_substring, is_blank, is_white_space, law_before_the_first, law_substring_anywhere,
    law_substring_splits, law_trimming_keeps_words, law_trimming_leaves_the_core,
    law_trimming_splits, lemma_first_index, lowercase, texts, trim, trimmed, unicode_lowercase,
};
use vstd::prelude::*;
use vstd::utf8::is_ascii_chars;

verus! {

/// Configuration that controls which clipboard offers are captured and how
/// much data is accepted per item.
#[derive(Debug, Clone)]
pub struct CaptureConfig {
    /// Allowed MIME base-types. An offered MIME matches if its base type
    /// (everything before the first `;`) is in this list.
    pub allowed_mimes: Vec<String>,
    /// Maximum total bytes across all formats in a single captured item.
    /// Formats that would push the running total over this limit are dropped.
    pub max_item_bytes: usize,
    /// Maximum bytes accepted for a single format. Formats whose data exceeds
    /// this value are dropped entirely (their bytes are not stored).
    pub max_format_bytes: usize,
}

/// The MIME types that are captured by default.
pub open spec fn default_mimes() -> Seq<Seq<char>> {
    seq![
        "text/plain"@,
        "text/html"@,
        "text/uri-list"@,
        "image/png"@,
        "image/jpeg"@,
        "image/webp"@,
        "image/bmp"@,
        "application/json"@,
        "application/rtf"@,
    ]
}

impl Default for CaptureConfig {
    fn default() -> (r: Self)
        ensures
            texts(r.allowed_mimes@) == default_mimes(),
            r.max_item_bytes == 8 * 1024 * 1024,
            r.max_format_bytes == 4 * 1024 * 1024,
    {
        let mut allowed_mimes: Vec<String> = Vec::new();
        allowed_mimes.push("text/plain".to_owned());
        allowed_mimes.push("text/html".to_owned());
        allowed_mimes.push("text/uri-list".to_owned());
        allowed_mimes.push("image/png".to_owned());
        allowed_mimes.push("image/jpeg".to_owned());
        allowed_mimes.push("image/webp".to_owned());
        allowed_mimes.push("image/bmp".to_owned());
        allowed_mimes.push("application/json".to_owned());
        allowed_mimes.push("application/rtf".to_owned());
        assert(texts(allowed_mimes@) =~= default_mimes());
        CaptureConfig {
            allowed_mimes,
            max_item_bytes: 8 * 1024 * 1024,  // 8 MiB
            max_format_bytes: 4 * 1024 * 1024,  // 4 MiB
        }
    }
}

/// The base type of a MIME type: what stands before the first `;`, trimmed.
pub open spec fn base_type(mime: Seq<char>) -> Seq<char> {
    trimmed(before(mime, ';'))
}

/// Extract the base MIME type (the part before any `;` parameter).
///
/// Examples:
/// - `"text/plain;charset=utf-8"` → `"text/plain"`
/// - `"image/png"` → `"image/png"`
pub fn mime_base_type(mime: &str) -> (r: &str)
    ensures
        r@ == base_type(mime@),
{
    let chars = chars_of(mime);
    let end = find_char(chars.as_slice(), ';');
    proof {
        lemma_first_index(mime@, ';');
        assert(mime@.subrange(0, end as int) =~= before(mime@, ';'));
    }
    trim(mime.substring_char(0, end))
}

/// A lowercased MIME type that marks its offer as secret.
pub open spec fn is_sensitive_type(lower: Seq<char>) -> bool {
    ||| has_substring(lower, "x-kde-passwordmanagerhint"@)
    ||| has_substring(base_type(lower), "secret"@)
}

/// Whether a lowercased MIME type marks its offer as secret.
pub fn is_sensitive_mime(lower: &str) -> (r: bool)
    ensures
        r == is_sensitive_type(lower@),
{
    // Rule 1: KDE password manager hint (any MIME containing the marker).
    if contains_substring(lower, "x-kde-passwordmanagerhint") {
        return true;
    }
    // Rule 2: SecretService and similar secret-carrying types. Parameters are
    // split off first so that only the type/subtype is checked.
    contains_substring(mime_base_type(lower), "secret")
}

/// Returns `true` if the offered MIME set indicates a sensitive/secret
/// selection that should be skipped entirely.
///
/// Rules (conservative — when in doubt, skip):
///
/// 1. **KDE password-manager hint**: any MIME containing
///    `x-kde-passwordManagerHint` (case-insensitive). The presence of the hint
///    type is enough to skip; its content is not read.
///
/// 2. **SecretService**: any MIME whose base type contains `secret`
///    (case-insensitive).
pub fn is_sensitive(offered_mimes: &[String]) -> (r: bool)
    ensures
        r == exists|i: int|
            0 <= i < offered_mimes@.len() && is_sensitive_type(
                unicode_lowercase((#[trigger] offered_mimes@[i])@),
            ),
        forall|i: int, front: Seq<char>, back: Seq<char>|
            0 <= i < offered_mimes@.len() && is_ascii_chars((#[trigger] offered_mimes@[i])@)
                && offered_mimes@[i]@.map_values(|c: char| ascii_lower(c)) == #[trigger] (front
                + "x-kde-passwordmanagerhint"@ + back) ==> r,
{
    let mut i: usize = 0;
    while i < offered_mimes.len()
        invariant
            i <= offered_mimes@.len(),
            forall|j: int|
                0 <= j < i ==> !is_sensitive_type(
                    unicode_lowercase((#[trigger] offered_mimes@[j])@),
                ),
            forall|j: int|
                0 <= j < i && is_ascii_chars((#[trigger] offered_mimes@[j])@) ==> unicode_lowercase(
                    offered_mimes@[j]@,
                ) == offered_mimes@[j]@.map_values(|c: char| ascii_lower(c)),
        decreases offered_mimes@.len() - i,
    {
        let lower = lowercase(offered_mimes[i].as_str());
        if is_sensitive_mime(lower.as_str()) {
            return true;
        }
        i += 1;
    }
    proof {
        assert forall|i: int, front: Seq<char>, back: Seq<char>|
            0 <= i < offered_mimes@.len() && is_ascii_chars((#[trigger] offered_mimes@[i])@)
                && offered_mimes@[i]@.map_values(|c: char| ascii_lower(c)) == #[trigger] (front
                + "x-kde-passwordmanagerhint"@ + back) implies false by {
            law_marked_type_is_sensitive(front, back);
        }
    }
    false
}

/// An accepted MIME type from a clipboard offer.
///
/// Capture needs two forms of the type:
/// - `offered`: the *exact* string the source advertised, which must be passed
///   back verbatim — a source that only offered `text/plain;charset=utf-8` will
///   not answer a request for `text/plain`.
/// - `store_as`: the normalized lowercase base type (no `;` parameters) used as
///   the stored MIME, so `decode <id> text/plain` and the `text/plain` label
///   fallback work predictably.
#[derive(Debug, Clone, PartialEq, Eq)]
pub struct AcceptedMime {
    /// Exact advertised type, to ask for.
    pub offered: String,
    /// Normalized base type; store under this.
    pub store_as: String,
}

/// The accepted types as pairs: what was offered, and what it is stored as.
pub open spec fn accepted_pairs(list: Seq<AcceptedMime>) -> Seq<(Seq<char>, Seq<char>)> {
    list.map_values(|a: AcceptedMime| (a.offered@, a.store_as@))
}

/// Of the offered types those whose base type is allowed and was not offered
/// before, in the order of the offer.
pub open spec fn accepted(
    allowed: Seq<Seq<char>>,
    offered: Seq<Seq<char>>,
    bases: Seq<Seq<char>>,
) -> Seq<(Seq<char>, Seq<char>)>
    decreases offered.len(),
{
    if offered.len() == 0 {
        Seq::empty()
    } else {
        let front = accepted(allowed, offered.drop_last(), bases.drop_last());
        if allowed.contains(bases.last()) && !bases.drop_last().contains(bases.last()) {
            front.push((offered.last(), bases.last()))
        } else {
            front
        }
    }
}

/// Texts in lowercase.
pub open spec fn lowered(list: Seq<Seq<char>>) -> Seq<Seq<char>> {
    list.map_values(|s: Seq<char>| unicode_lowercase(s))
}

/// The lowercase base types of an offer.
pub open spec fn lowered_bases(offered: Seq<Seq<char>>) -> Seq<Seq<char>> {
    offered.map_values(|s: Seq<char>| unicode_lowercase(base_type(s)))
}

/// The accepted types of an offer whose lowercase base types are `bases`, with
/// the lowercase allowlist `allowed`.
pub fn accept_bases(allowed: &Vec<String>, offered: &[String], bases: &Vec<String>) -> (r: Vec<
    AcceptedMime,
>)
    requires
        bases@.len() == offered@.len(),
    ensures
        accepted_pairs(r@) == accepted(texts(allowed@), texts(offered@), texts(bases@)),
{
    let ghost all = texts(offered@);
    let ghost all_bases = texts(bases@);
    let mut result: Vec<AcceptedMime> = Vec::new();
    let mut i: usize = 0;
    assert(accepted_pairs(result@) =~= accepted(texts(allowed@), all.take(0), all_bases.take(0)));
    while i < offered.len()
        invariant
            i <= offered@.len(),
            bases@.len() == offered@.len(),
            all == texts(offered@),
            all_bases == texts(bases@),
            accepted_pairs(result@) == accepted(
                texts(allowed@),
                all.take(i as int),
                all_bases.take(i as int),
            ),
        decreases offered@.len() - i,
    {
        let ghost before = result@;
        proof {
            let n = i as int;
            assert(all.take(n + 1).drop_last() =~= all.take(n));
            assert(all_bases.take(n + 1).drop_last() =~= all_bases.take(n));
            assert(all.take(n + 1).last() == offered@[n]@);
            assert(all_bases.take(n + 1).last() == bases@[n]@);
        }
        let base = bases[i].clone();
        let mut seen = false;
        let mut j: usize = 0;
        while j < i
            invariant
                j <= i < bases@.len(),
                all_bases == texts(bases@),
                seen == all_bases.take(j as int).contains(base@),
            decreases i - j,
        {
            let same = crate::text::same_text(bases[j].as_str(), base.as_str());
            proof {
                assert(all_bases[j as int] == bases@[j as int]@);
                lemma_take_contains(all_bases, j as int, base@);
            }
            if same {
                seen = true;
            }
            j += 1;
        }
        if contains_text(allowed.as_slice(), base.as_str()) && !seen {
            result.push(AcceptedMime { offered: offered[i].clone(), store_as: base });
            assert(accepted_pairs(result@) =~= accepted_pairs(before).push(
                (offered@[i as int]@, bases@[i as int]@),
            ));
        }
        i += 1;
    }
    assert(all.take(i as int) =~= all);
    assert(all_bases.take(i as int) =~= all_bases);
    result
}

proof fn lemma_take_contains(s: Seq<Seq<char>>, n: int, x: Seq<char>)
    requires
        0 <= n < s.len(),
    ensures
        s.take(n + 1).contains(x) <==> s.take(n).contains(x) || s[n] == x,
{
    let next = s.take(n + 1);
    if next.contains(x) {
        let i = choose|i: int| 0 <= i < next.len() && next[i] == x;
        if i < n {
            assert(s.take(n)[i] == x);
        }
    }
    if s.take(n).contains(x) {
        let i = choose|i: int| 0 <= i < n && s.take(n)[i] == x;
        assert(next[i] == x);
    }
    assert(next[n] == s[n]);
}

/// Returns the subset of `offered` MIMEs that are accepted by `config`,
/// preserving offer order and deduplicating by base type (first occurrence
/// wins).
///
/// A MIME is accepted when its base type (before `;`) is in
/// `config.allowed_mimes`. The comparison is case-insensitive. Each result
/// carries the original advertised string and the normalized base type (for
/// storage); see [`AcceptedMime`].
pub fn accepted_mimes(config: &CaptureConfig, offered: &[String]) -> (r: Vec<AcceptedMime>)
    ensures
        accepted_pairs(r@) == accepted(
            lowered(texts(config.allowed_mimes@)),
            texts(offered@),
            lowered_bases(texts(offered@)),
        ),
{
    let mut allowed: Vec<String> = Vec::new();
    let mut i: usize = 0;
    while i < config.allowed_mimes.len()
        invariant
            i <= config.allowed_mimes@.len(),
            allowed@.len() == i,
            forall|j: int|
                0 <= j < i ==> (#[trigger] allowed@[j])@ == unicode_lowercase(
                    config.allowed_mimes@[j]@,
                ),
        decreases config.allowed_mimes@.len() - i,
    {
        allowed.push(lowercase(config.allowed_mimes[i].as_str()));
        i += 1;
    }
    assert(texts(allowed@) =~= lowered(texts(config.allowed_mimes@)));
    let mut bases: Vec<String> = Vec::new();
    let mut i: usize = 0;
    while i < offered.len()
        invariant
            i <= offered@.len(),
            bases@.len() == i,
            forall|j: int|
                0 <= j < i ==> (#[trigger] bases@[j])@ == unicode_lowercase(
                    base_type(offered@[j]@),
                ),
        decreases offered@.len() - i,
    {
        bases.push(lowercase(mime_base_type(offered[i].as_str())));
        i += 1;
    }
    assert(texts(bases@) =~= lowered_bases(texts(offered@)));
    accept_bases(&allowed, offered, &bases)
}

/// The sum of two sizes, or the largest size where it is larger.
pub open spec fn saturated_sum(a: usize, b: usize) -> int {
    if a + b > usize::MAX {
        usize::MAX as int
    } else {
        a + b
    }
}

/// A format of this size can be added to an item with this running total.
pub open spec fn fits(config: CaptureConfig, current_total: usize, format_bytes: usize) -> bool {
    &&& format_bytes <= config.max_format_bytes
    &&& saturated_sum(current_total, format_bytes) <= config.max_item_bytes
}

/// Returns `true` when a format with `format_bytes` bytes can be added to an
/// item whose running total is `current_total`, without exceeding the per-
/// format or per-item caps in `config`.
///
/// - If `format_bytes > config.max_format_bytes` the format is dropped.
/// - If `current_total + format_bytes > config.max_item_bytes` the format is
///   dropped and no further formats should be accepted for this item.
pub fn within_size_limits(config: &CaptureConfig, current_total: usize, format_bytes: usize) -> (r:
    bool)
    ensures
        r == fits(*config, current_total, format_bytes),
{
    if format_bytes > config.max_format_bytes {
        return false;
    }
    if current_total.saturating_add(format_bytes) > config.max_item_bytes {
        return false;
    }
    true
}

// ---------------------------------------------------------------------------
// What holds of secrets
// ---------------------------------------------------------------------------

/// A lowercased type with the password manager's marker in it is sensitive,
/// whatever stands before or behind the marker.
pub proof fn law_marked_type_is_sensitive(front: Seq<char>, back: Seq<char>)
    ensures
        is_sensitive_type(front + "x-kde-passwordmanagerhint"@ + back),
{
    law_substring_anywhere(front, "x-kde-passwordmanagerhint"@, back);
}

/// A lowercased type with `secret` in it is sensitive where the word stands
/// before the parameters, whatever else stands before or behind it.
pub proof fn law_secret_type_is_sensitive(front: Seq<char>, back: Seq<char>)
    requires
        !front.contains(';'),
    ensures
        is_sensitive_type(front + "secret"@ + back),
{
    reveal_strlit("secret");
    let word = "secret"@;
    let head = before(back, ';');
    let tail = back.skip(head.len() as int);
    lemma_first_index(back, ';');
    assert(back =~= head + tail);
    let base = front + word + head;
    assert(!base.contains(';')) by {
        if base.contains(';') {
            let i = choose|i: int| 0 <= i < base.len() && base[i] == ';';
            if i < front.len() {
                assert(front[i] == ';');
            } else if i < front.len() + word.len() {
                assert(base[i] == word[i - front.len()]);
            } else {
                assert(base[i] == back[i - front.len() - word.len()]);
            }
        }
    }
    let all = front + word + back;
    if tail.len() > 0 {
        assert(tail[0] == ';');
        law_before_the_first(base, ';', tail.drop_first());
        assert(all =~= base + seq![';'] + tail.drop_first());
    } else {
        law_before_the_first(base, ';', tail);
        assert(all =~= base);
    }
    law_trimming_keeps_words(front, word, head);
}

/// A lowercased type with neither the marker anywhere in it nor `secret` before
/// its parameters is not sensitive.
pub proof fn law_other_types_are_not_sensitive(lower: Seq<char>)
    requires
        forall|front: Seq<char>, back: Seq<char>|
            lower != #[trigger] (front + "x-kde-passwordmanagerhint"@ + back),
        forall|front: Seq<char>, back: Seq<char>|
            !front.contains(';') ==> lower != #[trigger] (front + "secret"@ + back),
    ensures
        !is_sensitive_type(lower),
{
    if has_substring(lower, "x-kde-passwordmanagerhint"@) {
        let (front, back) = law_substring_splits(lower, "x-kde-passwordmanagerhint"@);
        assert(lower == front + "x-kde-passwordmanagerhint"@ + back);
    }
    let word = "secret"@;
    let base = base_type(lower);
    if has_substring(base, word) {
        let (a, b) = law_substring_splits(base, word);
        let head = before(lower, ';');
        let (lead, trail) = law_trimming_splits(head);
        lemma_first_index(lower, ';');
        let front = lead + a;
        let back = b + trail + lower.skip(head.len() as int);
        assert(head =~= front + word + (b + trail));
        assert(lower =~= head + lower.skip(head.len() as int));
        assert(lower =~= front + word + back);
        assert(!front.contains(';')) by {
            if front.contains(';') {
                let i = choose|i: int| 0 <= i < front.len() && front[i] == ';';
                assert(head[i] == front[i]);
                assert(lower[i] == head[i]);
            }
        }
    }
}

/// The base type of a MIME type is what stands before its parameters, without
/// the white space around it.
pub proof fn law_base_type(lead: Seq<char>, base: Seq<char>, trail: Seq<char>, params: Seq<char>)
    requires
        is_blank(lead),
        is_blank(trail),
        has_no_margin(base),
        !base.contains(';'),
    ensures
        base_type(lead + base + trail) == base,
        base_type(lead + base + trail + seq![';'] + params) == base,
{
    let head = lead + base + trail;
    assert(!head.contains(';')) by {
        if head.contains(';') {
            let i = choose|i: int| 0 <= i < head.len() && head[i] == ';';
            if i < lead.len() {
                assert(is_white_space(lead[i]));
            } else if i < lead.len() + base.len() {
                assert(base[i - lead.len()] == ';');
            } else {
                assert(is_white_space(trail[i - lead.len() - base.len()]));
            }
        }
    }
    law_before_the_first(head, ';', params);
    law_trimming_leaves_the_core(lead, base, trail);
}

// ---------------------------------------------------------------------------
// What holds of the accepted types
// ---------------------------------------------------------------------------

/// Every accepted type was offered, is stored under its base type, and is
/// allowed; no two are stored under the same type; and every allowed base type
/// of the offer is accepted.
pub proof fn law_accepted(
    allowed: Seq<Seq<char>>,
    offered: Seq<Seq<char>>,
    bases: Seq<Seq<char>>,
)
    requires
        offered.len() == bases.len(),
    ensures
        forall|k: int|
            0 <= k < accepted(allowed, offered, bases).len() ==> {
                let a = #[trigger] accepted(allowed, offered, bases)[k];
                allowed.contains(a.1) && exists|i: int|
                    0 <= i < offered.len() && #[trigger] offered[i] == a.0 && bases[i] == a.1
            },
        forall|k: int, l: int|
            0 <= k < l < accepted(allowed, offered, bases).len() ==> (#[trigger] accepted(
                allowed,
                offered,
                bases,
            )[k]).1 != (#[trigger] accepted(allowed, offered, bases)[l]).1,
        forall|i: int|
            0 <= i < bases.len() && allowed.contains(#[trigger] bases[i]) ==> exists|k: int|
                0 <= k < accepted(allowed, offered, bases).len() && (#[trigger] accepted(
                    allowed,
                    offered,
                    bases,
                )[k]).1 == bases[i],
    decreases offered.len(),
{
    if offered.len() > 0 {
        let front = offered.drop_last();
        let front_bases = bases.drop_last();
        let n = offered.len() - 1;
        law_accepted(allowed, front, front_bases);
        let before = accepted(allowed, front, front_bases);
        let all = accepted(allowed, offered, bases);
        assert forall|k: int| 0 <= k < all.len() implies allowed.contains((#[trigger] all[k]).1)
            && exists|i: int|
            0 <= i < offered.len() && #[trigger] offered[i] == all[k].0 && bases[i] == all[k].1 by {
            if k < before.len() {
                assert(all[k] == before[k]);
                let i = choose|i: int|
                    0 <= i < front.len() && #[trigger] front[i] == before[k].0 && front_bases[i]
                        == before[k].1;
                assert(offered[i] == all[k].0 && bases[i] == all[k].1);
            } else {
                assert(offered[n] == all[k].0 && bases[n] == all[k].1);
            }
        }
        assert forall|k: int, l: int| 0 <= k < l < all.len() implies (#[trigger] all[k]).1 != (
        #[trigger] all[l]).1 by {
            assert(all[k] == before[k]);
            if l < before.len() {
                assert(all[l] == before[l]);
            } else {
                let i = choose|i: int|
                    0 <= i < front.len() && #[trigger] front[i] == before[k].0 && front_bases[i]
                        == before[k].1;
                assert(front_bases.contains(before[k].1));
            }
        }
        assert forall|i: int| 0 <= i < bases.len() && allowed.contains(
            #[trigger] bases[i],
        ) implies exists|k: int| 0 <= k < all.len() && (#[trigger] all[k]).1 == bases[i] by {
            if i < n {
                assert(front_bases[i] == bases[i]);
                let k = choose|k: int|
                    0 <= k < before.len() && (#[trigger] before[k]).1 == front_bases[i];
                assert(all[k] == before[k]);
            } else if front_bases.contains(bases[n]) {
                let j = choose|j: int| 0 <= j < front_bases.len() && front_bases[j] == bases[n];
                assert(allowed.contains(front_bases[j]));
                let k = choose|k: int|
                    0 <= k < before.len() && (#[trigger] before[k]).1 == front_bases[j];
                assert(all[k] == before[k]);
            } else {
                assert(all[before.len() as int].1 == bases[n]);
            }
        }
    }
}

/// The accepted types are stored in the order of the offer, and of several with
/// one base type the first is asked for. The result gives the place of each in
/// the offer.
pub proof fn law_first_offer_of_a_type_wins(
    allowed: Seq<Seq<char>>,
    offered: Seq<Seq<char>>,
    bases: Seq<Seq<char>>,
) -> (places: Seq<int>)
    requires
        offered.len() == bases.len(),
    ensures
        places.len() == accepted(allowed, offered, bases).len(),
        forall|k: int|
            0 <= k < places.len() ==> {
                &&& 0 <= #[trigger] places[k] < offered.len()
                &&& accepted(allowed, offered, bases)[k] == (offered[places[k]], bases[places[k]])
                &&& forall|j: int| 0 <= j < places[k] ==> #[trigger] bases[j] != bases[places[k]]
            },
        forall|k: int, l: int| 0 <= k < l < places.len() ==> places[k] < places[l],
    decreases offered.len(),
{
    if offered.len() == 0 {
        Seq::empty()
    } else {
        let front = offered.drop_last();
        let front_bases = bases.drop_last();
        let places = law_first_offer_of_a_type_wins(allowed, front, front_bases);
        let n = offered.len() - 1;
        let some = accepted(allowed, front, front_bases);
        let all = accepted(allowed, offered, bases);
        let out = if all.len() > some.len() {
            places.push(n)
        } else {
            places
        };
        assert forall|k: int| 0 <= k < out.len() implies {
            &&& 0 <= #[trigger] out[k] < offered.len()
            &&& all[k] == (offered[out[k]], bases[out[k]])
            &&& forall|j: int| 0 <= j < out[k] ==> #[trigger] bases[j] != bases[out[k]]
        } by {
            if k < places.len() {
                assert(out[k] == places[k]);
                assert(all[k] == some[k]);
                assert forall|j: int| 0 <= j < out[k] implies #[trigger] bases[j]
                    != bases[out[k]] by {
                    assert(front_bases[j] != front_bases[places[k]]);
                }
            } else {
                assert(out[k] == n);
                assert forall|j: int| 0 <= j < n implies #[trigger] bases[j] != bases[n] by {
                    assert(front_bases[j] == bases[j]);
                    assert(front_bases.contains(bases[j]));
                }
            }
        }
        out
    }
}

/// A format is accepted exactly where neither it nor the item it joins exceeds
/// its cap; an item whose cap is the largest size has none.
pub proof fn law_size_caps(config: CaptureConfig, current_total: usize, format_bytes: usize)
    ensures
        fits(config, current_total, format_bytes) <==> format_bytes <= config.max_format_bytes && (
        current_total + format_bytes <= config.max_item_bytes || config.max_item_bytes
            == usize::MAX),
{
}

/// What is captured by default: plain text, HTML, lists of URIs, PNG, JPEG, WebP
/// and BMP images, JSON and RTF.
pub proof fn law_default_types(mime: Seq<char>)
    ensures
        default_mimes().contains(mime) <==> {
            ||| mime == "text/plain"@
            ||| mime == "text/html"@
            ||| mime == "text/uri-list"@
            ||| mime == "image/png"@
            ||| mime == "image/jpeg"@
            ||| mime == "image/webp"@
            ||| mime == "image/bmp"@
            ||| mime == "application/json"@
            ||| mime == "application/rtf"@
        },
{
    let list = default_mimes();
    assert(list[0] == "text/plain"@ && list[1] == "text/html"@ && list[2] == "text/uri-list"@);
    assert(list[3] == "image/png"@ && list[4] == "image/jpeg"@ && list[5] == "image/webp"@);
    assert(list[6] == "image/bmp"@ && list[7] == "application/json"@);
    assert(list[8] == "application/rtf"@);
}

} // verus!
