//! The quota model reported by the local language server, and the rules that
//! pick which bucket the menu bar shows.

use vstd::prelude::*;
use crate::text::{chars_of, decimal, decimal_string, digits_value, is_digit};

verus! {

/// The localhost Connect RPC that reports the signed-in user's quota.
pub const QUOTA_RPC_PATH: &'static str = "/exa.language_server_pb.LanguageServerService/RetrieveUserQuotaSummary";

/// The line the language server logs once it listens for HTTP, before the port.
pub const LOG_PORT_PREFIX: &'static str = "Language server listening on random port at ";

/// What follows the port on that line.
pub const LOG_PORT_SUFFIX: &'static str = " for HTTP";

/// The body of a `RetrieveUserQuotaSummary` reply.
#[derive(Clone, Debug)]
pub struct QuotaResponseEnvelope {
    pub response: QuotaSummary,
}

/// Every quota group the service reports.
#[derive(Clone, Debug)]
pub struct QuotaSummary {
    pub groups: Vec<QuotaGroup>,
    pub description: Option<String>,
}

/// A named family of quota buckets (for example all Gemini models).
#[derive(Clone, Debug)]
pub struct QuotaGroup {
    pub display_name: String,
    pub description: Option<String>,
    pub buckets: Vec<QuotaBucket>,
}

/// One quota window.
///
/// `remaining_fraction` carries the IEEE-754 bit pattern of the fraction the
/// service reported (`f64::to_bits`); the library only moves it around, so it
/// is held exactly as received.
#[derive(Clone, Debug)]
pub struct QuotaBucket {
    pub bucket_id: String,
    pub display_name: String,
    pub description: Option<String>,
    pub window: Option<String>,
    pub remaining_fraction: Option<u64>,
    pub disabled: Option<bool>,
    pub reset_time: Option<String>,
}

impl QuotaBucket {
    /// A bucket is shown unless the service marked it disabled.
    pub open spec fn spec_is_enabled(&self) -> bool {
        self.disabled != Some(true)
    }

    /// Whether the bucket is shown (the service did not disable it).
    pub fn is_enabled(&self) -> (r: bool)
        ensures
            r == self.spec_is_enabled(),
    {
        match self.disabled {
            Some(true) => false,
            _ => true,
        }
    }
}

/// The enabled buckets of `buckets`, each paired with its group, in order.
pub open spec fn group_entries(group: QuotaGroup, buckets: Seq<QuotaBucket>) -> Seq<(QuotaGroup, QuotaBucket)>
    decreases buckets.len(),
{
    if buckets.len() == 0 {
        seq![]
    } else {
        let rest = group_entries(group, buckets.drop_last());
        if buckets.last().spec_is_enabled() {
            rest.push((group, buckets.last()))
        } else {
            rest
        }
    }
}

/// The enabled buckets of all `groups`, group by group, each with its group.
pub open spec fn entries_of(groups: Seq<QuotaGroup>) -> Seq<(QuotaGroup, QuotaBucket)>
    decreases groups.len(),
{
    if groups.len() == 0 {
        seq![]
    } else {
        entries_of(groups.drop_last()) + group_entries(groups.last(), groups.last().buckets@)
    }
}

/// The enabled buckets of a summary, in the order the service listed them.
pub open spec fn enabled_entries(summary: QuotaSummary) -> Seq<(QuotaGroup, QuotaBucket)> {
    entries_of(summary.groups@)
}

/// Drops the references of a list of borrowed pairs.
pub open spec fn pair_values<'a>(pairs: Seq<(&'a QuotaGroup, &'a QuotaBucket)>) -> Seq<(QuotaGroup, QuotaBucket)> {
    pairs.map_values(|p: (&'a QuotaGroup, &'a QuotaBucket)| (*p.0, *p.1))
}

/// Every enabled bucket of the summary together with its group, in order.
pub fn enabled_buckets(summary: &QuotaSummary) -> (r: Vec<(&QuotaGroup, &QuotaBucket)>)
    ensures
        pair_values(r@) == enabled_entries(*summary),
{
    let mut r: Vec<(&QuotaGroup, &QuotaBucket)> = Vec::new();
    let mut i: usize = 0;
    while i < summary.groups.len()
        invariant
            i <= summary.groups@.len(),
            pair_values(r@) == entries_of(summary.groups@.take(i as int)),
        decreases summary.groups@.len() - i,
    {
        let group = &summary.groups[i];
        let mut j: usize = 0;
        proof {
            assert(group.buckets@.take(0) =~= Seq::<QuotaBucket>::empty());
            assert(entries_of(summary.groups@.take(i as int)) + group_entries(*group, group.buckets@.take(0))
                =~= entries_of(summary.groups@.take(i as int)));
        }
        while j < group.buckets.len()
            invariant
                i < summary.groups@.len(),
                *group == summary.groups@[i as int],
                j <= group.buckets@.len(),
                pair_values(r@) == entries_of(summary.groups@.take(i as int))
                    + group_entries(*group, group.buckets@.take(j as int)),
            decreases group.buckets@.len() - j,
        {
            let bucket = &group.buckets[j];
            let ghost before = r@;
            proof {
                assert(group.buckets@.take(j + 1).drop_last() =~= group.buckets@.take(j as int));
            }
            if bucket.is_enabled() {
                r.push((group, bucket));
                proof {
                    assert(pair_values(r@) =~= pair_values(before).push((*group, *bucket)));
                }
            }
            j += 1;
        }
        proof {
            assert(group.buckets@.take(j as int) =~= group.buckets@);
            assert(summary.groups@.take(i + 1).drop_last() =~= summary.groups@.take(i as int));
        }
        i += 1;
    }
    proof {
        assert(summary.groups@.take(i as int) =~= summary.groups@);
    }
    r
}


/// A group lists exactly its enabled buckets, in order, each paired with the
/// group: the buckets the service did not disable, none dropped, none added.
pub proof fn group_lists_its_enabled_buckets(group: QuotaGroup, buckets: Seq<QuotaBucket>)
    ensures
        group_entries(group, buckets) == buckets.filter(|b: QuotaBucket| b.disabled != Some(true)).map_values(
            |b: QuotaBucket| (group, b),
        ),
    decreases buckets.len(),
{
    reveal(Seq::filter);
    if buckets.len() > 0 {
        group_lists_its_enabled_buckets(group, buckets.drop_last());
        let f = buckets.filter(|b: QuotaBucket| b.disabled != Some(true));
        let g = buckets.drop_last().filter(|b: QuotaBucket| b.disabled != Some(true));
        if buckets.last().disabled != Some(true) {
            assert(f == g.push(buckets.last()));
            assert(f.map_values(|b: QuotaBucket| (group, b)) =~= g.map_values(|b: QuotaBucket| (group, b)).push(
                (group, buckets.last()),
            ));
        } else {
            assert(f == g);
        }
    }
}

proof fn lemma_group_entries_contains(group: QuotaGroup, buckets: Seq<QuotaBucket>, x: (QuotaGroup, QuotaBucket))
    ensures
        group_entries(group, buckets).contains(x) <==> (x.0 == group && buckets.contains(x.1)
            && x.1.disabled != Some(true)),
    decreases buckets.len(),
{
    if buckets.len() > 0 {
        let rest = buckets.drop_last();
        let last = buckets.last();
        lemma_group_entries_contains(group, rest, x);
        let ge = group_entries(group, buckets);
        let gr = group_entries(group, rest);
        if ge.contains(x) {
            let k = choose|k: int| 0 <= k < ge.len() && ge[k] == x;
            if k < gr.len() {
                assert(gr[k] == x);
                let j = choose|j: int| 0 <= j < rest.len() && rest[j] == x.1;
                assert(buckets[j] == x.1);
            } else {
                assert(buckets[buckets.len() - 1] == x.1);
            }
        }
        if x.0 == group && buckets.contains(x.1) && x.1.disabled != Some(true) {
            let j = choose|j: int| 0 <= j < buckets.len() && buckets[j] == x.1;
            if j < rest.len() {
                assert(rest[j] == x.1);
                let k = choose|k: int| 0 <= k < gr.len() && gr[k] == x;
                assert(ge[k] == x);
            } else {
                assert(ge[ge.len() - 1] == x);
            }
        }
    }
}

proof fn lemma_entries_of_contains(groups: Seq<QuotaGroup>, x: (QuotaGroup, QuotaBucket))
    ensures
        entries_of(groups).contains(x) <==> (groups.contains(x.0) && x.0.buckets@.contains(x.1)
            && x.1.disabled != Some(true)),
    decreases groups.len(),
{
    if groups.len() > 0 {
        let rest = groups.drop_last();
        let last = groups.last();
        lemma_entries_of_contains(rest, x);
        lemma_group_entries_contains(last, last.buckets@, x);
        let e = entries_of(groups);
        let er = entries_of(rest);
        let gl = group_entries(last, last.buckets@);
        assert(e == er + gl);
        if e.contains(x) {
            let k = choose|k: int| 0 <= k < e.len() && e[k] == x;
            if k < er.len() {
                assert(er[k] == x);
                let j = choose|j: int| 0 <= j < rest.len() && rest[j] == x.0;
                assert(groups[j] == x.0);
            } else {
                assert(gl[k - er.len()] == x);
                assert(groups[groups.len() - 1] == x.0);
            }
        }
        if groups.contains(x.0) && x.0.buckets@.contains(x.1) && x.1.disabled != Some(true) {
            let j = choose|j: int| 0 <= j < groups.len() && groups[j] == x.0;
            if j < rest.len() {
                assert(rest[j] == x.0);
                let k = choose|k: int| 0 <= k < er.len() && er[k] == x;
                assert(e[k] == x);
            } else {
                let k = choose|k: int| 0 <= k < gl.len() && gl[k] == x;
                assert(e[er.len() + k] == x);
            }
        }
    }
}

/// A bucket is listed with its group exactly when the group is one of the
/// summary's, the bucket is one of the group's, and the service did not
/// disable it.
pub proof fn enabled_buckets_are_listed(summary: QuotaSummary, group: QuotaGroup, bucket: QuotaBucket)
    ensures
        enabled_entries(summary).contains((group, bucket)) <==> (summary.groups@.contains(group)
            && group.buckets@.contains(bucket) && bucket.disabled != Some(true)),
{
    lemma_entries_of_contains(summary.groups@, (group, bucket));
}

/// The key under which a bucket is remembered as the menu bar choice.
pub open spec fn key_of(group: QuotaGroup, bucket: QuotaBucket) -> Seq<char> {
    group.display_name@ + "|"@ + bucket.bucket_id@
}

/// `"<group display name>|<bucket id>"`, the stored form of a menu bar choice.
pub fn selection_key(group: &QuotaGroup, bucket: &QuotaBucket) -> (r: String)
    ensures
        r@ == key_of(*group, *bucket),
{
    let mut key = group.display_name.clone();
    key.append("|");
    key.append(bucket.bucket_id.as_str());
    key
}

/// The first position at or after `i` whose key is `selection`, or -1.
pub open spec fn key_index_from(entries: Seq<(QuotaGroup, QuotaBucket)>, selection: Seq<char>, i: int) -> int
    decreases entries.len() - i,
{
    if i < 0 || i >= entries.len() {
        -1
    } else if key_of(entries[i].0, entries[i].1) == selection {
        i
    } else {
        key_index_from(entries, selection, i + 1)
    }
}

/// The first position whose key is `selection`, or -1.
pub open spec fn key_index(entries: Seq<(QuotaGroup, QuotaBucket)>, selection: Seq<char>) -> int {
    key_index_from(entries, selection, 0)
}

/// The fraction the menu bar shows: that of the selected bucket, else that of
/// the first enabled bucket.
pub open spec fn shown_fraction(entries: Seq<(QuotaGroup, QuotaBucket)>, selection: Seq<char>) -> Option<u64> {
    let k = key_index(entries, selection);
    if k >= 0 {
        entries[k].1.remaining_fraction
    } else if entries.len() > 0 {
        entries[0].1.remaining_fraction
    } else {
        None
    }
}

/// The selection after validation: kept when it names an enabled bucket,
/// otherwise the key of the first enabled bucket, or empty when there is none.
pub open spec fn validated(entries: Seq<(QuotaGroup, QuotaBucket)>, selection: Seq<char>) -> Seq<char> {
    if key_index(entries, selection) >= 0 {
        selection
    } else if entries.len() > 0 {
        key_of(entries[0].0, entries[0].1)
    } else {
        seq![]
    }
}

proof fn lemma_key_index_from(entries: Seq<(QuotaGroup, QuotaBucket)>, selection: Seq<char>, i: int)
    requires
        0 <= i,
    ensures
        key_index_from(entries, selection, i) == -1 || (i <= key_index_from(entries, selection, i) < entries.len()
            && key_of(entries[key_index_from(entries, selection, i)].0, entries[key_index_from(entries, selection, i)].1) == selection),
        key_index_from(entries, selection, i) == -1 ==> forall|j: int| i <= j < entries.len()
            ==> key_of(#[trigger] entries[j].0, entries[j].1) != selection,
        forall|j: int| i <= j < key_index_from(entries, selection, i)
            ==> key_of(#[trigger] entries[j].0, entries[j].1) != selection,
    decreases entries.len() - i,
{
    if i < entries.len() && key_of(entries[i].0, entries[i].1) != selection {
        lemma_key_index_from(entries, selection, i + 1);
    }
}

/// The first position of `entries` whose key is `selection`.
fn find_key(entries: &Vec<(&QuotaGroup, &QuotaBucket)>, selection: &str) -> (r: Option<usize>)
    ensures
        match r {
            Some(k) => k < entries@.len() && key_index(pair_values(entries@), selection@) == k as int,
            None => key_index(pair_values(entries@), selection@) == -1,
        },
{
    let ghost es = pair_values(entries@);
    let wanted = selection.to_owned();
    let mut i: usize = 0;
    while i < entries.len()
        invariant
            es == pair_values(entries@),
            wanted@ == selection@,
            i <= entries@.len(),
            key_index(es, selection@) == key_index_from(es, selection@, i as int),
        decreases entries@.len() - i,
    {
        let (group, bucket) = entries[i];
        let key = selection_key(group, bucket);
        proof {
            assert(es[i as int] == (*group, *bucket));
        }
        if key == wanted {
            return Some(i);
        }
        i += 1;
    }
    None
}

/// The remaining fraction (as bits) of the bucket the menu bar shows.
pub fn selected_fraction(summary: &QuotaSummary, selection: &str) -> (r: Option<u64>)
    ensures
        r == shown_fraction(enabled_entries(*summary), selection@),
{
    let buckets = enabled_buckets(summary);
    let ghost es = enabled_entries(*summary);
    match find_key(&buckets, selection) {
        Some(k) => {
            proof { assert(es[k as int] == (*buckets@[k as int].0, *buckets@[k as int].1)); }
            buckets[k].1.remaining_fraction
        },
        None => {
            if buckets.len() > 0 {
                proof { assert(es[0] == (*buckets@[0].0, *buckets@[0].1)); }
                buckets[0].1.remaining_fraction
            } else {
                None
            }
        },
    }
}

/// Replaces a selection that names no enabled bucket with the first enabled
/// bucket's key, or with the empty string when none is enabled.
pub fn validate_selection(summary: &QuotaSummary, selection: &mut String)
    ensures
        final(selection)@ == validated(enabled_entries(*summary), old(selection)@),
{
    let buckets = enabled_buckets(summary);
    let ghost es = enabled_entries(*summary);
    if find_key(&buckets, selection.as_str()).is_some() {
        return;
    }
    if buckets.len() > 0 {
        proof { assert(es[0] == (*buckets@[0].0, *buckets@[0].1)); }
        *selection = selection_key(buckets[0].0, buckets[0].1);
    } else {
        *selection = String::new();
    }
}

/// After validation the selection names an enabled bucket, unless there is
/// none, in which case it is empty.
pub proof fn validated_selection_is_available(summary: QuotaSummary, selection: Seq<char>)
    ensures
        ({
            let es = enabled_entries(summary);
            let v = validated(es, selection);
            &&& es.len() > 0 ==> 0 <= key_index(es, v) < es.len()
            &&& es.len() > 0 ==> key_of(es[key_index(es, v)].0, es[key_index(es, v)].1) == v
            &&& es.len() == 0 ==> v.len() == 0
        }),
{
    let es = enabled_entries(summary);
    lemma_key_index_from(es, selection, 0);
    lemma_key_index_from(es, validated(es, selection), 0);
    if es.len() == 0 {
        assert(key_index(es, selection) == -1);
    }
}

/// Validating an already validated selection changes nothing.
pub proof fn validation_is_idempotent(summary: QuotaSummary, selection: Seq<char>)
    ensures
        validated(enabled_entries(summary), validated(enabled_entries(summary), selection))
            == validated(enabled_entries(summary), selection),
{
    let es = enabled_entries(summary);
    validated_selection_is_available(summary, selection);
    lemma_key_index_from(es, validated(es, selection), 0);
    if es.len() == 0 {
        assert(key_index(es, validated(es, selection)) == -1);
        assert(validated(es, selection) =~= seq![]);
    }
}

/// Validating the selection never changes the fraction the menu bar shows.
pub proof fn validation_keeps_shown_fraction(summary: QuotaSummary, selection: Seq<char>)
    ensures
        shown_fraction(enabled_entries(summary), validated(enabled_entries(summary), selection))
            == shown_fraction(enabled_entries(summary), selection),
{
    let es = enabled_entries(summary);
    lemma_key_index_from(es, selection, 0);
    if key_index(es, selection) < 0 && es.len() > 0 {
        assert(key_index(es, key_of(es[0].0, es[0].1)) == 0);
    }
}


/// The first position at or after `i` that holds `c`, or `s.len()`.
pub open spec fn char_index_from(s: Seq<char>, c: char, i: int) -> int
    decreases s.len() - i,
{
    if i < 0 || i >= s.len() {
        s.len() as int
    } else if s[i] == c {
        i
    } else {
        char_index_from(s, c, i + 1)
    }
}

pub proof fn lemma_char_index_from(s: Seq<char>, c: char, i: int)
    requires
        0 <= i <= s.len(),
    ensures
        i <= char_index_from(s, c, i) <= s.len(),
        char_index_from(s, c, i) < s.len() ==> s[char_index_from(s, c, i)] == c,
        forall|j: int| i <= j < char_index_from(s, c, i) ==> s[j] != c,
    decreases s.len() - i,
{
    if i < s.len() && s[i] != c {
        lemma_char_index_from(s, c, i + 1);
    }
}

/// Whether `needle` occurs in `hay` starting at position `j`.
pub open spec fn occurs_at(hay: Seq<char>, needle: Seq<char>, j: int) -> bool {
    0 <= j && j + needle.len() <= hay.len() && hay.subrange(j, j + needle.len()) == needle
}

/// The first position at or after `i` where `needle` occurs in `hay`, or -1.
pub open spec fn find_from(hay: Seq<char>, needle: Seq<char>, i: int) -> int
    decreases hay.len() + 1 - i,
{
    if i < 0 || i + needle.len() > hay.len() {
        -1
    } else if occurs_at(hay, needle, i) {
        i
    } else {
        find_from(hay, needle, i + 1)
    }
}

/// The first position at or after `i` that is not an ASCII digit, or `s.len()`.
pub open spec fn digits_end(s: Seq<char>, i: int) -> int
    decreases s.len() - i,
{
    if i < 0 || i >= s.len() {
        s.len() as int
    } else if !is_digit(s[i]) {
        i
    } else {
        digits_end(s, i + 1)
    }
}

/// The port announced on one log line: the first occurrence of the prefix
/// must be followed by one or more digits and then exactly the suffix, and
/// the digits must denote a number that fits in 16 bits.
pub open spec fn port_in_line(line: Seq<char>) -> Option<u16> {
    let k = find_from(line, LOG_PORT_PREFIX@, 0);
    if k < 0 {
        None
    } else {
        let rest = line.subrange(k + LOG_PORT_PREFIX@.len(), line.len() as int);
        let d = digits_end(rest, 0);
        if d == 0 || rest.subrange(d, rest.len() as int) != LOG_PORT_SUFFIX@ {
            None
        } else if digits_value(rest.subrange(0, d)) <= u16::MAX {
            Some(digits_value(rest.subrange(0, d)) as u16)
        } else {
            None
        }
    }
}

/// Drops one carriage return at the end of a line.
pub open spec fn strip_cr(line: Seq<char>) -> Seq<char> {
    if line.len() > 0 && line.last() == '\r' {
        line.drop_last()
    } else {
        line
    }
}

/// The port announced on the first line at or after `start` that announces
/// one. Lines end at `\n`; a `\r` right before that `\n` is not part of the
/// line; the text after the last `\n`, if any, is the last line.
pub open spec fn port_in_text_from(s: Seq<char>, start: int) -> Option<u16>
    decreases s.len() + 1 - start,
{
    if start < 0 || start >= s.len() {
        None
    } else {
        let nl = char_index_from(s, '\n', start);
        proof {
            lemma_char_index_from(s, '\n', start);
        }
        let line = if nl < s.len() {
            strip_cr(s.subrange(start, nl))
        } else {
            s.subrange(start, s.len() as int)
        };
        match port_in_line(line) {
            Some(p) => Some(p),
            None => port_in_text_from(s, nl + 1),
        }
    }
}

/// The port of the first line of `s` that announces one.
pub open spec fn port_in_text(s: Seq<char>) -> Option<u16> {
    port_in_text_from(s, 0)
}

proof fn lemma_digits_value_monotonic(ds: Seq<char>, i: int, j: int)
    requires
        0 <= i <= j <= ds.len(),
    ensures
        digits_value(ds.subrange(0, i)) <= digits_value(ds.subrange(0, j)),
    decreases j - i,
{
    if i < j {
        lemma_digits_value_monotonic(ds, i, j - 1);
        assert(ds.subrange(0, j).drop_last() =~= ds.subrange(0, j - 1));
    }
}

/// The copy of `v[a..b]`.
fn copy_range(v: &Vec<char>, a: usize, b: usize) -> (r: Vec<char>)
    requires
        a <= b <= v@.len(),
    ensures
        r@ == v@.subrange(a as int, b as int),
{
    let mut r: Vec<char> = Vec::new();
    let mut i = a;
    while i < b
        invariant
            a <= i <= b <= v@.len(),
            r@ == v@.subrange(a as int, i as int),
        decreases b - i,
    {
        r.push(v[i]);
        proof {
            assert(r@ =~= v@.subrange(a as int, i + 1));
        }
        i += 1;
    }
    r
}

/// Whether `needle` occurs in `hay` at position `j`.
fn occurs_at_exec(hay: &Vec<char>, needle: &Vec<char>, j: usize) -> (r: bool)
    requires
        j + needle@.len() <= hay@.len(),
    ensures
        r == occurs_at(hay@, needle@, j as int),
{
    let hay_len = hay.len();
    let mut i: usize = 0;
    while i < needle.len()
        invariant
            hay_len == hay@.len(),
            j + needle@.len() <= hay@.len(),
            i <= needle@.len(),
            forall|t: int| 0 <= t < i ==> hay@[j + t] == needle@[t],
        decreases needle@.len() - i,
    {
        if hay[j + i] != needle[i] {
            proof {
                assert(hay@.subrange(j as int, j + needle@.len())[i as int] != needle@[i as int]);
            }
            return false;
        }
        i += 1;
    }
    proof {
        assert(hay@.subrange(j as int, j + needle@.len()) =~= needle@);
    }
    true
}

/// The first position of `needle` in `hay`.
fn find_exec(hay: &Vec<char>, needle: &Vec<char>) -> (r: Option<usize>)
    ensures
        match r {
            Some(k) => k as int == find_from(hay@, needle@, 0) && k + needle@.len() <= hay@.len(),
            None => find_from(hay@, needle@, 0) == -1,
        },
{
    if needle.len() > hay.len() {
        return None;
    }
    if needle.len() == 0 {
        proof {
            assert(hay@.subrange(0, 0) =~= needle@);
        }
        return Some(0);
    }
    let hay_len = hay.len();
    let last = hay_len - needle.len();
    let mut j: usize = 0;
    while j <= last
        invariant
            hay_len == hay@.len(),
            needle@.len() >= 1,
            last + needle@.len() == hay@.len(),
            j <= last + 1,
            find_from(hay@, needle@, 0) == find_from(hay@, needle@, j as int),
        decreases last + 1 - j,
    {
        if occurs_at_exec(hay, needle, j) {
            return Some(j);
        }
        j += 1;
    }
    None
}

/// The first position at or after `i` in `s` that is not an ASCII digit.
fn digits_end_exec(s: &Vec<char>, i: usize) -> (r: usize)
    requires
        i <= s@.len(),
    ensures
        r as int == digits_end(s@, i as int),
        i <= r <= s@.len(),
        forall|t: int| i <= t < r ==> is_digit(#[trigger] s@[t]),
{
    let mut j = i;
    while j < s.len() && '0' <= s[j] && s[j] <= '9'
        invariant
            i <= j <= s@.len(),
            digits_end(s@, i as int) == digits_end(s@, j as int),
            forall|t: int| i <= t < j ==> is_digit(#[trigger] s@[t]),
        decreases s@.len() - j,
    {
        j += 1;
    }
    j
}

/// The 16-bit number written by the digits `s[a..b]`, if it fits.
fn parse_port_digits(s: &Vec<char>, a: usize, b: usize) -> (r: Option<u16>)
    requires
        a <= b <= s@.len(),
        forall|t: int| a <= t < b ==> is_digit(#[trigger] s@[t]),
    ensures
        r == (if digits_value(s@.subrange(a as int, b as int)) <= u16::MAX {
            Some(digits_value(s@.subrange(a as int, b as int)) as u16)
        } else {
            None
        }),
{
    let ghost ds = s@.subrange(a as int, b as int);
    let mut acc: u32 = 0;
    let mut i = a;
    proof {
        assert(ds.subrange(0, 0) =~= Seq::<char>::empty());
    }
    while i < b
        invariant
            a <= i <= b <= s@.len(),
            ds == s@.subrange(a as int, b as int),
            forall|t: int| a <= t < b ==> is_digit(#[trigger] s@[t]),
            acc as int == digits_value(ds.subrange(0, i - a)),
            acc <= u16::MAX,
        decreases b - i,
    {
        let c = s[i];
        assert(is_digit(s@[i as int]));
        let d = (c as u32) - ('0' as u32);
        proof {
            assert(ds.subrange(0, i + 1 - a).drop_last() =~= ds.subrange(0, i - a));
            assert(ds.subrange(0, i + 1 - a).last() == c);
        }
        acc = acc * 10 + d;
        if acc > 65535 {
            proof {
                lemma_digits_value_monotonic(ds, i + 1 - a, b - a);
                assert(ds.subrange(0, b - a) =~= ds);
            }
            return None;
        }
        i += 1;
    }
    proof {
        assert(ds.subrange(0, b - a) =~= ds);
    }
    Some(acc as u16)
}

/// The port announced on one line.
fn port_in_line_exec(line: &Vec<char>, prefix: &Vec<char>, suffix: &Vec<char>) -> (r: Option<u16>)
    requires
        prefix@ == LOG_PORT_PREFIX@,
        suffix@ == LOG_PORT_SUFFIX@,
    ensures
        r == port_in_line(line@),
{
    match find_exec(line, prefix) {
        None => None,
        Some(k) => {
            let line_len = line.len();
            let start = k + prefix.len();
            let rest = copy_range(line, start, line.len());
            let d = digits_end_exec(&rest, 0);
            if d == 0 {
                return None;
            }
            let tail = copy_range(&rest, d, rest.len());
            if tail.len() != suffix.len() {
                proof {
                    assert(tail@ != suffix@);
                }
                return None;
            }
            if !occurs_at_exec(&tail, suffix, 0) {
                proof {
                    assert(tail@.subrange(0, suffix@.len() as int) =~= tail@);
                }
                return None;
            }
            proof {
                assert(tail@.subrange(0, suffix@.len() as int) =~= tail@);
            }
            parse_port_digits(&rest, 0, d)
        },
    }
}

/// The HTTP port that a language server log announces: that of the first
/// line reading exactly `Language server listening on random port at <digits> for HTTP`
/// after its first occurrence of the prefix, with a port that fits in 16 bits.
pub fn http_port(log_contents: &str) -> (r: Option<u16>)
    ensures
        r == port_in_text(log_contents@),
{
    let s = chars_of(log_contents);
    let prefix = chars_of(LOG_PORT_PREFIX);
    let suffix = chars_of(LOG_PORT_SUFFIX);
    let n = s.len();
    let mut start: usize = 0;
    while start < n
        invariant
            n == s@.len(),
            s@ == log_contents@,
            prefix@ == LOG_PORT_PREFIX@,
            suffix@ == LOG_PORT_SUFFIX@,
            start <= n,
            port_in_text(s@) == port_in_text_from(s@, start as int),
        decreases n - start,
    {
        let mut nl = start;
        while nl < n && s[nl] != '\n'
            invariant
                n == s@.len(),
                start <= nl <= n,
                char_index_from(s@, '\n', start as int) == char_index_from(s@, '\n', nl as int),
            decreases n - nl,
        {
            nl += 1;
        }
        let mut line = copy_range(&s, start, nl);
        if nl < n && line.len() > 0 && line[line.len() - 1] == '\r' {
            line.pop();
            proof {
                assert(line@ =~= strip_cr(s@.subrange(start as int, nl as int)));
            }
        }
        match port_in_line_exec(&line, &prefix, &suffix) {
            Some(p) => return Some(p),
            None => {},
        }
        if nl >= n {
            return None;
        }
        start = nl + 1;
    }
    None
}


proof fn lemma_no_char(s: Seq<char>, c: char, i: int)
    requires
        0 <= i <= s.len(),
        forall|j: int| i <= j < s.len() ==> s[j] != c,
    ensures
        char_index_from(s, c, i) == s.len(),
{
    lemma_char_index_from(s, c, i);
}

proof fn lemma_digits_end(s: Seq<char>, i: int, m: int)
    requires
        0 <= i <= m < s.len(),
        forall|j: int| i <= j < m ==> is_digit(#[trigger] s[j]),
        !is_digit(s[m]),
    ensures
        digits_end(s, i) == m,
    decreases m - i,
{
    if i < m {
        lemma_digits_end(s, i + 1, m);
    }
}

/// The announcement line holds no line break and is read as the port it names.
proof fn lemma_announcement_line(port: u16)
    ensures
        ({
            let text = LOG_PORT_PREFIX@ + decimal(port as nat) + LOG_PORT_SUFFIX@;
            &&& forall|j: int| 0 <= j < text.len() ==> text[j] != '\n'
            &&& port_in_line(text) == Some(port)
        }),
{
    reveal_strlit("Language server listening on random port at ");
    reveal_strlit(" for HTTP");
    let prefix = LOG_PORT_PREFIX@;
    let suffix = LOG_PORT_SUFFIX@;
    let digits = decimal(port as nat);
    let text = prefix + digits + suffix;
    crate::text::lemma_decimal(port as nat);
    assert forall|j: int| 0 <= j < text.len() implies text[j] != '\n' by {
        if j < prefix.len() {
            assert(text[j] == prefix[j]);
        } else if j < prefix.len() + digits.len() {
            assert(text[j] == digits[j - prefix.len()]);
            assert(is_digit(digits[j - prefix.len()]));
        } else {
            assert(text[j] == suffix[j - prefix.len() - digits.len()]);
        }
    }
    assert(text.subrange(0, prefix.len() as int) =~= prefix);
    assert(occurs_at(text, prefix, 0));
    let rest = text.subrange(prefix.len() as int, text.len() as int);
    assert(rest =~= digits + suffix);
    assert forall|j: int| 0 <= j < digits.len() implies is_digit(#[trigger] rest[j]) by {
        assert(rest[j] == digits[j]);
    }
    assert(rest[digits.len() as int] == suffix[0]);
    lemma_digits_end(rest, 0, digits.len() as int);
    assert(rest.subrange(digits.len() as int, rest.len() as int) =~= suffix);
    assert(rest.subrange(0, digits.len() as int) =~= digits);
}

/// The line the language server logs is read back as the port it names.
pub proof fn announced_port_is_read_back(port: u16)
    ensures
        port_in_text(LOG_PORT_PREFIX@ + decimal(port as nat) + LOG_PORT_SUFFIX@) == Some(port),
{
    let text = LOG_PORT_PREFIX@ + decimal(port as nat) + LOG_PORT_SUFFIX@;
    lemma_announcement_line(port);
    lemma_no_char(text, '\n', 0);
    assert(text.subrange(0, text.len() as int) =~= text);
}

proof fn lemma_char_index_in_prefix(p: Seq<char>, a: Seq<char>, c: char, i: int)
    requires
        0 <= i <= p.len(),
        char_index_from(p, c, i) < p.len(),
    ensures
        char_index_from(p + a, c, i) == char_index_from(p, c, i),
    decreases p.len() - i,
{
    if i < p.len() && p[i] != c {
        lemma_char_index_in_prefix(p, a, c, i + 1);
    }
}

proof fn lemma_port_after_lines(p: Seq<char>, a: Seq<char>, start: int)
    requires
        0 <= start <= p.len(),
        p.len() == 0 || p.last() == '\n',
        port_in_text_from(p, start) is None,
        a.len() > 0,
        forall|j: int| 0 <= j < a.len() ==> a[j] != '\n',
    ensures
        port_in_text_from(p + a, start) == port_in_line(a),
    decreases p.len() + 1 - start,
{
    let s = p + a;
    if start == p.len() {
        assert forall|j: int| start <= j < s.len() implies s[j] != '\n' by {
            assert(s[j] == a[j - start]);
        }
        lemma_no_char(s, '\n', start);
        assert(char_index_from(s, '\n', start) == s.len());
        assert(s.subrange(start, s.len() as int) =~= a);
        assert(port_in_text_from(s, s.len() + 1int) is None);
    } else {
        lemma_char_index_from(p, '\n', start);
        let nl = char_index_from(p, '\n', start);
        if nl == p.len() {
            assert(p[p.len() - 1] == '\n');
            assert(false);
        }
        lemma_char_index_in_prefix(p, a, '\n', start);
        assert(s.subrange(start, nl) =~= p.subrange(start, nl));
        assert(port_in_line(strip_cr(p.subrange(start, nl))) is None);
        assert(port_in_text_from(p, nl + 1) is None);
        lemma_port_after_lines(p, a, nl + 1);
    }
}

/// The announcement is found wherever it stands: after any complete lines
/// (each ending in a line break) that announce no port, the line announcing
/// a port is read as that port.
pub proof fn announcement_after_other_lines_is_found(lines: Seq<char>, port: u16)
    requires
        lines.len() == 0 || lines.last() == '\n',
        port_in_text(lines) is None,
    ensures
        port_in_text(lines + LOG_PORT_PREFIX@ + decimal(port as nat) + LOG_PORT_SUFFIX@) == Some(port),
{
    let a = LOG_PORT_PREFIX@ + decimal(port as nat) + LOG_PORT_SUFFIX@;
    lemma_announcement_line(port);
    reveal_strlit("Language server listening on random port at ");
    assert(a.len() > 0);
    lemma_port_after_lines(lines, a, 0);
    assert(lines + LOG_PORT_PREFIX@ + decimal(port as nat) + LOG_PORT_SUFFIX@ =~= lines + a);
}

/// The countdown shown under a bucket, for a reset `seconds` from now.
pub open spec fn reset_duration_text(seconds: int) -> Seq<char> {
    if seconds <= 0 {
        "Reset due"@
    } else {
        let total_minutes: int = seconds / 60;
        let days: int = total_minutes / 1440;
        let hours: int = (total_minutes % 1440) / 60;
        let minutes: int = total_minutes % 60;
        if days > 0 {
            if hours > 0 {
                "Resets in "@ + decimal(days as nat) + "d "@ + decimal(hours as nat) + "h"@
            } else {
                "Resets in "@ + decimal(days as nat) + "d"@
            }
        } else if hours > 0 {
            "Resets in "@ + decimal(hours as nat) + "h "@ + decimal(minutes as nat) + "m"@
        } else if minutes > 1 {
            "Resets in "@ + decimal(minutes as nat) + "m"@
        } else {
            "Resets in "@ + decimal(1) + "m"@
        }
    }
}

/// The countdown in terms of the seconds left: a reset a day or more away
/// names its whole days (and the whole hours past them, when there are any);
/// a reset less than a day away names its whole hours and the minutes past
/// them, or, under an hour, its whole minutes and at least one.
pub proof fn countdown_names_days_hours_and_minutes(seconds: int)
    ensures
        seconds >= 86400 ==> reset_duration_text(seconds) == "Resets in "@ + decimal((seconds / 86400) as nat) + if (seconds
            % 86400) / 3600 > 0 {
            "d "@ + decimal(((seconds % 86400) / 3600) as nat) + "h"@
        } else {
            "d"@
        },
        3600 <= seconds < 86400 ==> reset_duration_text(seconds) == "Resets in "@ + decimal((seconds / 3600) as nat)
            + "h "@ + decimal(((seconds % 3600) / 60) as nat) + "m"@,
        0 < seconds < 3600 ==> reset_duration_text(seconds) == "Resets in "@ + decimal(
            if seconds >= 120 { (seconds / 60) as nat } else { 1 },
        ) + "m"@,
        seconds <= 0 ==> reset_duration_text(seconds) == "Reset due"@,
{
    if seconds > 0 {
        let total_minutes: int = seconds / 60;
        assert(total_minutes / 1440 == seconds / 86400) by (nonlinear_arith)
            requires total_minutes == seconds / 60, seconds > 0;
        assert((total_minutes % 1440) / 60 == (seconds % 86400) / 3600) by (nonlinear_arith)
            requires total_minutes == seconds / 60, seconds > 0;
        assert(total_minutes % 60 == (seconds % 3600) / 60) by (nonlinear_arith)
            requires total_minutes == seconds / 60, seconds > 0;
        if seconds < 86400 {
            assert(total_minutes / 1440 == 0);
            assert((total_minutes % 1440) / 60 == seconds / 3600);
        }
        let a = "Resets in "@;
        let b = decimal((seconds / 86400) as nat);
        let c = decimal(((seconds % 86400) / 3600) as nat);
        assert(a + b + "d "@ + c + "h"@ =~= a + b + ("d "@ + c + "h"@));
        let h = decimal((seconds / 3600) as nat);
        let m = decimal(((seconds % 3600) / 60) as nat);
        assert(a + h + "h "@ + m + "m"@ =~= a + h + "h "@ + m + "m"@);
    }
}

/// `Reset due` once the reset time has passed; otherwise the time left in
/// whole days and hours, hours and minutes, or minutes (at least one).
pub fn format_reset_duration(seconds: i64) -> (r: String)
    ensures
        r@ == reset_duration_text(seconds as int),
{
    if seconds <= 0 {
        return String::from_str("Reset due");
    }
    let total_minutes = seconds / 60;
    let days = total_minutes / (24 * 60);
    let hours = (total_minutes % (24 * 60)) / 60;
    let minutes = total_minutes % 60;
    let mut text = String::from_str("Resets in ");
    if days > 0 {
        text.append(decimal_string(days as u64).as_str());
        if hours > 0 {
            text.append("d ");
            text.append(decimal_string(hours as u64).as_str());
            text.append("h");
        } else {
            text.append("d");
        }
    } else if hours > 0 {
        text.append(decimal_string(hours as u64).as_str());
        text.append("h ");
        text.append(decimal_string(minutes as u64).as_str());
        text.append("m");
    } else {
        let shown = if minutes > 1 { minutes } else { 1 };
        text.append(decimal_string(shown as u64).as_str());
        text.append("m");
    }
    text
}

/// Whole seconds from `now` (Unix seconds and nanoseconds, UTC) until the
/// instant an RFC 3339 timestamp denotes, truncated toward zero; `None` when
/// the text is not RFC 3339 or `now` is not a representable instant.
pub uninterp spec fn rfc3339_seconds_until(text: Seq<char>, now_seconds: i64, now_nanos: u32) -> Option<i64>;

/// Calls chrono's `DateTime::parse_from_rfc3339` on `reset_time`, builds the
/// instant `now` with `DateTime::from_timestamp`, and returns
/// `(reset - now).num_seconds()`. The contract only ties the result to its
/// arguments through `rfc3339_seconds_until`: what RFC 3339 admits and how
/// chrono counts leap seconds are left to chrono.
#[verifier::external_body]
fn seconds_until(reset_time: &str, now_seconds: i64, now_nanos: u32) -> (r: Option<i64>)
    ensures
        r == rfc3339_seconds_until(reset_time@, now_seconds, now_nanos),
{
    let reset_at = chrono::DateTime::parse_from_rfc3339(reset_time).ok()?;
    let now = chrono::DateTime::from_timestamp(now_seconds, now_nanos)?;
    Some((reset_at.with_timezone(&chrono::Utc) - now).num_seconds())
}

/// The label for a reset that is `seconds_until` away, or unknown.
pub open spec fn reset_label_text(seconds_until: Option<i64>) -> Seq<char> {
    match seconds_until {
        None => "Reset time unavailable"@,
        Some(seconds) => reset_duration_text(seconds as int),
    }
}

/// The label for a reset `seconds_until` away (`None` when unknown).
pub fn reset_label_for(seconds_until: Option<i64>) -> (r: String)
    ensures
        r@ == reset_label_text(seconds_until),
{
    match seconds_until {
        None => String::from_str("Reset time unavailable"),
        Some(seconds) => format_reset_duration(seconds),
    }
}

impl QuotaBucket {
    /// The countdown to this bucket's reset, seen at `now` (Unix seconds and
    /// nanoseconds, UTC).
    pub fn reset_label(&self, now_seconds: i64, now_nanos: u32) -> (r: String)
        ensures
            r@ == match self.reset_time {
                None => reset_label_text(None),
                Some(text) => reset_label_text(rfc3339_seconds_until(text@, now_seconds, now_nanos)),
            },
    {
        match &self.reset_time {
            None => reset_label_for(None),
            Some(text) => reset_label_for(seconds_until(text.as_str(), now_seconds, now_nanos)),
        }
    }
}


/// How many of the newest log files are searched for a port.
pub const MAX_LOGS_SCANNED: usize = 20;

/// A file found in the CLI's log directory.
pub struct LogFile {
    /// The file's name, decoded lossily as UTF-8.
    pub file_name: String,
    /// When it was last modified, in nanoseconds from the Unix epoch (the
    /// epoch itself when unknown).
    pub modified_nanos: i128,
}

/// Whether a file name has the extension `log`: it ends in `.log` after a
/// non-empty stem, as `Path::extension` reads it.
pub open spec fn is_log_file_name(name: Seq<char>) -> bool {
    name.len() > 4 && name.subrange(name.len() - 4, name.len() as int) == ".log"@
}

/// Whether `file_name` names a log file.
pub fn has_log_extension(file_name: &str) -> (r: bool)
    ensures
        r == is_log_file_name(file_name@),
{
    let name = chars_of(file_name);
    let ext = chars_of(".log");
    proof {
        reveal_strlit(".log");
    }
    if name.len() <= 4 {
        return false;
    }
    let start = name.len() - 4;
    let tail = copy_range(&name, start, name.len());
    if occurs_at_exec(&tail, &ext, 0) {
        proof {
            assert(tail@.subrange(0, 4) =~= tail@);
        }
        true
    } else {
        proof {
            assert(tail@.subrange(0, 4) =~= tail@);
        }
        false
    }
}

/// The positions of the newest log files, newest first, at most
/// `MAX_LOGS_SCANNED` of them. Files modified at the same moment may come in
/// any order among themselves.
pub open spec fn newest_first(files: Seq<LogFile>, chosen: Seq<usize>) -> bool {
    &&& chosen.len() <= MAX_LOGS_SCANNED
    &&& chosen.no_duplicates()
    &&& forall|k: int| 0 <= k < chosen.len() ==> #[trigger] chosen[k] < files.len()
        && is_log_file_name(files[chosen[k] as int].file_name@)
    &&& forall|k: int, l: int| 0 <= k < l < chosen.len()
        ==> files[#[trigger] chosen[k] as int].modified_nanos >= files[#[trigger] chosen[l] as int].modified_nanos
    &&& forall|i: int| 0 <= i < files.len() && is_log_file_name(#[trigger] files[i].file_name@) && !chosen.contains(i as usize)
        ==> chosen.len() == MAX_LOGS_SCANNED
            && files[i].modified_nanos <= files[chosen.last() as int].modified_nanos
}

/// Picks the log files to read, newest first.
pub fn newest_logs(files: &Vec<LogFile>) -> (r: Vec<usize>)
    ensures
        newest_first(files@, r@),
{
    let n = files.len();
    let mut is_log: Vec<bool> = Vec::new();
    let mut i: usize = 0;
    while i < n
        invariant
            n == files@.len(),
            i <= n,
            is_log@.len() == i,
            forall|j: int| 0 <= j < i ==> #[trigger] is_log@[j] == is_log_file_name(files@[j].file_name@),
        decreases n - i,
    {
        let b = has_log_extension(files[i].file_name.as_str());
        is_log.push(b);
        i += 1;
    }
    let mut taken: Vec<bool> = Vec::new();
    let mut i: usize = 0;
    while i < n
        invariant
            i <= n,
            taken@.len() == i,
            forall|j: int| 0 <= j < i ==> !#[trigger] taken@[j],
        decreases n - i,
    {
        taken.push(false);
        i += 1;
    }
    let mut chosen: Vec<usize> = Vec::new();
    while chosen.len() < MAX_LOGS_SCANNED
        invariant
            n == files@.len(),
            is_log@.len() == n,
            taken@.len() == n,
            forall|j: int| 0 <= j < n ==> #[trigger] is_log@[j] == is_log_file_name(files@[j].file_name@),
            forall|j: int| 0 <= j < n ==> (#[trigger] taken@[j] <==> chosen@.contains(j as usize)),
            chosen@.len() <= MAX_LOGS_SCANNED,
            chosen@.no_duplicates(),
            forall|k: int| 0 <= k < chosen@.len() ==> #[trigger] chosen@[k] < n
                && is_log_file_name(files@[chosen@[k] as int].file_name@),
            forall|k: int, l: int| 0 <= k < l < chosen@.len()
                ==> files@[#[trigger] chosen@[k] as int].modified_nanos >= files@[#[trigger] chosen@[l] as int].modified_nanos,
            chosen@.len() > 0 ==> forall|i: int| 0 <= i < n && is_log_file_name(#[trigger] files@[i].file_name@)
                && !chosen@.contains(i as usize) ==> files@[i].modified_nanos <= files@[chosen@.last() as int].modified_nanos,
        decreases MAX_LOGS_SCANNED - chosen@.len(),
    {
        let mut best: Option<usize> = None;
        let mut j: usize = 0;
        while j < n
            invariant
                n == files@.len(),
                is_log@.len() == n,
                taken@.len() == n,
                j <= n,
                match best {
                    Some(b) => b < j && is_log@[b as int] && !taken@[b as int]
                        && forall|t: int| 0 <= t < j && is_log@[t] && !taken@[t]
                            ==> files@[t].modified_nanos <= files@[b as int].modified_nanos,
                    None => forall|t: int| 0 <= t < j ==> !(is_log@[t] && !taken@[t]),
                },
            decreases n - j,
        {
            if is_log[j] && !taken[j] {
                match best {
                    None => {
                        best = Some(j);
                    },
                    Some(b) => {
                        if files[j].modified_nanos > files[b].modified_nanos {
                            best = Some(j);
                        }
                    },
                }
            }
            j += 1;
        }
        match best {
            None => {
                proof {
                    assert forall|i: int| 0 <= i < n && is_log_file_name(#[trigger] files@[i].file_name@)
                        implies chosen@.contains(i as usize) by {
                        assert(is_log@[i]);
                        assert(taken@[i]);
                    }
                }
                return chosen;
            },
            Some(b) => {
                let ghost old_chosen = chosen@;
                chosen.push(b);
                taken.set(b, true);
                proof {
                    assert(!old_chosen.contains(b));
                    assert forall|j: int| 0 <= j < n implies (#[trigger] taken@[j] <==> chosen@.contains(j as usize)) by {
                        if j == b as int {
                            assert(chosen@[chosen@.len() - 1] == b);
                        } else {
                            if old_chosen.contains(j as usize) {
                                let k = choose|k: int| 0 <= k < old_chosen.len() && old_chosen[k] == j as usize;
                                assert(chosen@[k] == j as usize);
                            }
                            if chosen@.contains(j as usize) {
                                let k = choose|k: int| 0 <= k < chosen@.len() && chosen@[k] == j as usize;
                                assert(k < old_chosen.len());
                                assert(old_chosen[k] == j as usize);
                            }
                        }
                    }
                    assert forall|k: int, l: int| 0 <= k < l < chosen@.len()
                        implies files@[#[trigger] chosen@[k] as int].modified_nanos >= files@[#[trigger] chosen@[l] as int].modified_nanos by {
                        if l == chosen@.len() - 1 {
                            assert(chosen@[k] == old_chosen[k]);
                            assert(old_chosen.contains(chosen@[k]));
                        }
                    }
                    assert forall|i: int| 0 <= i < n && is_log_file_name(#[trigger] files@[i].file_name@)
                        && !chosen@.contains(i as usize) implies files@[i].modified_nanos <= files@[chosen@.last() as int].modified_nanos by {
                        assert(is_log@[i]);
                        assert(!old_chosen.contains(i as usize)) by {
                            if old_chosen.contains(i as usize) {
                                let k = choose|k: int| 0 <= k < old_chosen.len() && old_chosen[k] == i as usize;
                                assert(chosen@[k] == i as usize);
                            }
                        }
                    }
                }
            },
        }
    }
    chosen
}

/// The distinct ports announced by a list of log headers (`None` for a
/// header that could not be read), in the order first announced.
pub open spec fn header_ports(headers: Seq<Option<String>>) -> Seq<u16>
    decreases headers.len(),
{
    if headers.len() == 0 {
        seq![]
    } else {
        let earlier = header_ports(headers.drop_last());
        match headers.last() {
            Some(header) => match port_in_text(header@) {
                Some(port) => if earlier.contains(port) {
                    earlier
                } else {
                    earlier.push(port)
                },
                None => earlier,
            },
            None => earlier,
        }
    }
}

/// Whether a log header (when it could be read) announces `port`.
pub open spec fn announces(header: Option<String>, port: u16) -> bool {
    match header {
        Some(h) => port_in_text(h@) == Some(port),
        None => false,
    }
}

/// Every port that some header announces is a candidate, and every candidate
/// is announced by some header.
pub proof fn candidates_are_the_announced_ports(headers: Seq<Option<String>>, port: u16)
    ensures
        header_ports(headers).contains(port) <==> exists|k: int|
            0 <= k < headers.len() && announces(#[trigger] headers[k], port),
    decreases headers.len(),
{
    if headers.len() > 0 {
        let rest = headers.drop_last();
        candidates_are_the_announced_ports(rest, port);
        let hp = header_ports(headers);
        let hr = header_ports(rest);
        let last = headers.last();
        // hp is hr, possibly with the last header's port pushed
        assert forall|q: u16| hr.contains(q) implies hp.contains(q) by {
            let k = choose|k: int| 0 <= k < hr.len() && hr[k] == q;
            match last {
                Some(h) => match port_in_text(h@) {
                    Some(p) => if !hr.contains(p) {
                        assert(hp[k] == q);
                    },
                    None => {},
                },
                None => {},
            }
        }
        if hp.contains(port) {
            if !hr.contains(port) {
                let k = choose|k: int| 0 <= k < hp.len() && hp[k] == port;
                assert(announces(last, port));
                assert(headers[headers.len() - 1] == last);
            } else {
                let k = choose|k: int| 0 <= k < rest.len() && announces(rest[k], port);
                assert(headers[k] == rest[k]);
            }
        }
        if exists|k: int| 0 <= k < headers.len() && announces(#[trigger] headers[k], port) {
            let k = choose|k: int| 0 <= k < headers.len() && announces(#[trigger] headers[k], port);
            if k < rest.len() {
                assert(rest[k] == headers[k]);
            } else {
                assert(headers[k] == last);
                if !hr.contains(port) {
                    assert(hp == hr.push(port));
                    assert(hp[hr.len() as int] == port);
                }
            }
        }
    }
}

/// The ports to try, from the headers of the newest logs (newest first): the
/// port each announces, without repeats, in that order.
pub fn candidate_http_ports(headers: &Vec<Option<String>>) -> (r: Vec<u16>)
    ensures
        r@ == header_ports(headers@),
        r@.no_duplicates(),
{
    let mut ports: Vec<u16> = Vec::new();
    let mut i: usize = 0;
    while i < headers.len()
        invariant
            i <= headers@.len(),
            ports@ == header_ports(headers@.take(i as int)),
            ports@.no_duplicates(),
        decreases headers@.len() - i,
    {
        proof {
            assert(headers@.take(i + 1).drop_last() =~= headers@.take(i as int));
        }
        match &headers[i] {
            Some(header) => match http_port(header.as_str()) {
                Some(port) => {
                    let mut seen = false;
                    let mut j: usize = 0;
                    while j < ports.len()
                        invariant
                            j <= ports@.len(),
                            seen == exists|t: int| 0 <= t < j && ports@[t] == port,
                        decreases ports@.len() - j,
                    {
                        if ports[j] == port {
                            seen = true;
                        }
                        j += 1;
                    }
                    if !seen {
                        ports.push(port);
                    }
                },
                None => {},
            },
            None => {},
        }
        i += 1;
    }
    proof {
        assert(headers@.take(i as int) =~= headers@);
    }
    ports
}


/// The error when no log announces a port.
pub const NO_SESSIONS: &'static str = "No Antigravity sessions were found. Open agy and sign in.";

/// The error when no announced port answers.
pub const NO_REACHABLE_SESSION: &'static str = "No authenticated agy session is reachable. Open or restart agy.";

/// What the caller does next while looking for a session that answers.
pub enum FetchStep {
    /// Ask the language server on this port for the quota summary.
    TryPort(u16),
    /// Read the newest logs and report the candidate ports.
    ScanLogs,
    /// Finished: the port whose summary to use, or the error to show.
    Done(Result<u16, String>),
}

/// What the caller reports back.
pub enum FetchEvent {
    /// The request to the last port tried returned a summary (`true`) or failed.
    Attempted(bool),
    /// The candidate ports from the logs.
    Scanned(Vec<u16>),
}

/// Where a search stands.
pub enum SearchStage {
    TryingPreferred(u16),
    Scanning,
    Trying { ports: Vec<u16>, index: usize },
    Finished,
}

/// A search for a session that answers: the port that worked last time
/// first, then each port the logs announce, skipping that one.
pub struct PortSearch {
    pub preferred: Option<u16>,
    pub stage: SearchStage,
}

/// The first position at or after `i` whose port is not `preferred`, or `ports.len()`.
pub open spec fn next_candidate(ports: Seq<u16>, preferred: Option<u16>, i: int) -> int
    decreases ports.len() - i,
{
    if i < 0 || i >= ports.len() {
        ports.len() as int
    } else if Some(ports[i]) != preferred {
        i
    } else {
        next_candidate(ports, preferred, i + 1)
    }
}

/// A search moves forward: from any position the next port it tries is at
/// that position or later, is not the preferred port, and every port it skips
/// is the preferred one.
pub proof fn lemma_next_candidate(ports: Seq<u16>, preferred: Option<u16>, i: int)
    requires
        0 <= i <= ports.len(),
    ensures
        i <= next_candidate(ports, preferred, i) <= ports.len(),
        next_candidate(ports, preferred, i) < ports.len() ==> Some(ports[next_candidate(ports, preferred, i)]) != preferred,
        forall|j: int| i <= j < next_candidate(ports, preferred, i) ==> Some(ports[j]) == preferred,
    decreases ports.len() - i,
{
    if i < ports.len() && Some(ports[i]) == preferred {
        lemma_next_candidate(ports, preferred, i + 1);
    }
}

impl PortSearch {
    /// The search is consistent: a port being tried is never the preferred one.
    pub open spec fn wf(&self) -> bool {
        match self.stage {
            SearchStage::TryingPreferred(p) => self.preferred == Some(p),
            SearchStage::Trying { ports, index } => index < ports@.len() && Some(ports@[index as int]) != self.preferred,
            _ => true,
        }
    }

    /// Whether `event` is the report the search waits for.
    pub open spec fn accepts(&self, event: FetchEvent) -> bool {
        match self.stage {
            SearchStage::TryingPreferred(_) => event is Attempted,
            SearchStage::Scanning => event is Scanned,
            SearchStage::Trying { .. } => event is Attempted,
            SearchStage::Finished => false,
        }
    }
}

fn advance(preferred: Option<u16>, ports: Vec<u16>, from: usize) -> (r: (SearchStage, FetchStep))
    requires
        from <= ports@.len(),
    ensures
        ({
            let k = next_candidate(ports@, preferred, from as int);
            if k < ports@.len() {
                &&& r.0 == (SearchStage::Trying { ports, index: k as usize })
                &&& r.1 == FetchStep::TryPort(ports@[k])
            } else {
                &&& r.0 is Finished
                &&& r.1 matches FetchStep::Done(Err(e)) && e@ == NO_REACHABLE_SESSION@
            }
        }),
{
    let mut i = from;
    while i < ports.len()
        invariant
            from <= i <= ports@.len(),
            next_candidate(ports@, preferred, from as int) == next_candidate(ports@, preferred, i as int),
        decreases ports@.len() - i,
    {
        let candidate = ports[i];
        let same = match preferred {
            Some(p) => p == candidate,
            None => false,
        };
        if !same {
            return (SearchStage::Trying { ports, index: i }, FetchStep::TryPort(candidate));
        }
        i += 1;
    }
    (SearchStage::Finished, FetchStep::Done(Err(String::from_str(NO_REACHABLE_SESSION))))
}

/// Starts looking for the quota: the port that answered last time is asked
/// first; without one the logs are scanned.
pub fn fetch_quota(preferred_port: Option<u16>) -> (r: (PortSearch, FetchStep))
    ensures
        r.0.wf(),
        r.0.preferred == preferred_port,
        match preferred_port {
            Some(p) => r.0.stage == SearchStage::TryingPreferred(p) && r.1 == FetchStep::TryPort(p),
            None => r.0.stage is Scanning && r.1 is ScanLogs,
        },
{
    match preferred_port {
        Some(p) => (PortSearch { preferred: preferred_port, stage: SearchStage::TryingPreferred(p) }, FetchStep::TryPort(p)),
        None => (PortSearch { preferred: preferred_port, stage: SearchStage::Scanning }, FetchStep::ScanLogs),
    }
}

impl PortSearch {
    /// The search's next step once `event` is reported. A port that answers
    /// ends the search with that port. When the preferred port fails the logs
    /// are scanned; no announced port is an error, and otherwise each
    /// announced port other than the preferred one is tried in order, until
    /// one answers or all have failed.
    pub fn next(self, event: FetchEvent) -> (r: (PortSearch, FetchStep))
        requires
            self.wf(),
            self.accepts(event),
        ensures
            r.0.wf(),
            r.0.preferred == self.preferred,
            match (self.stage, event) {
                (SearchStage::TryingPreferred(p), FetchEvent::Attempted(true)) =>
                    r.0.stage is Finished && r.1 == FetchStep::Done(Ok(p)),
                (SearchStage::TryingPreferred(p), FetchEvent::Attempted(false)) =>
                    r.0.stage is Scanning && r.1 is ScanLogs,
                (SearchStage::Trying { ports, index }, FetchEvent::Attempted(true)) =>
                    r.0.stage is Finished && r.1 == FetchStep::Done(Ok(ports@[index as int])),
                (SearchStage::Trying { ports, index }, FetchEvent::Attempted(false)) => {
                    let k = next_candidate(ports@, self.preferred, index + 1);
                    if k < ports@.len() {
                        r.0.stage == (SearchStage::Trying { ports, index: k as usize }) && r.1 == FetchStep::TryPort(ports@[k])
                    } else {
                        r.0.stage is Finished && (r.1 matches FetchStep::Done(Err(e)) && e@ == NO_REACHABLE_SESSION@)
                    }
                },
                (SearchStage::Scanning, FetchEvent::Scanned(ports)) =>
                    if ports@.len() == 0 {
                        r.0.stage is Finished && (r.1 matches FetchStep::Done(Err(e)) && e@ == NO_SESSIONS@)
                    } else {
                        let k = next_candidate(ports@, self.preferred, 0);
                        if k < ports@.len() {
                            r.0.stage == (SearchStage::Trying { ports, index: k as usize }) && r.1 == FetchStep::TryPort(ports@[k])
                        } else {
                            r.0.stage is Finished && (r.1 matches FetchStep::Done(Err(e)) && e@ == NO_REACHABLE_SESSION@)
                        }
                    },
                _ => false,
            },
    {
        let preferred = self.preferred;
        match self.stage {
            SearchStage::TryingPreferred(p) => match event {
                FetchEvent::Attempted(true) => (PortSearch { preferred, stage: SearchStage::Finished }, FetchStep::Done(Ok(p))),
                _ => (PortSearch { preferred, stage: SearchStage::Scanning }, FetchStep::ScanLogs),
            },
            SearchStage::Scanning => match event {
                FetchEvent::Scanned(ports) => {
                    if ports.len() == 0 {
                        (PortSearch { preferred, stage: SearchStage::Finished }, FetchStep::Done(Err(String::from_str(NO_SESSIONS))))
                    } else {
                        proof {
                            lemma_next_candidate(ports@, preferred, 0);
                        }
                        let (stage, step) = advance(preferred, ports, 0);
                        (PortSearch { preferred, stage }, step)
                    }
                },
                _ => (PortSearch { preferred, stage: SearchStage::Finished }, FetchStep::Done(Err(String::from_str(NO_SESSIONS)))),
            },
            SearchStage::Trying { ports, index } => match event {
                FetchEvent::Attempted(true) => {
                    let port = ports[index];
                    (PortSearch { preferred, stage: SearchStage::Finished }, FetchStep::Done(Ok(port)))
                },
                _ => {
                    let _len = ports.len();
                    proof {
                        lemma_next_candidate(ports@, preferred, index + 1);
                    }
                    let (stage, step) = advance(preferred, ports, index + 1);
                    (PortSearch { preferred, stage }, step)
                },
            },
            SearchStage::Finished => (PortSearch { preferred, stage: SearchStage::Finished }, FetchStep::Done(Err(String::from_str(NO_REACHABLE_SESSION)))),
        }
    }
}

} // verus!
