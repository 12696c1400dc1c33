//! What the popover and the menu bar show, computed from plain values.

use vstd::prelude::*;
use crate::quota::{
    enabled_entries, group_entries, key_of, pair_values, QuotaBucket, QuotaGroup,
    QuotaSummary,
};
use crate::text::{decimal, decimal_string};

verus! {

/// How long ago the quota was fetched, as the footer words it.
pub open spec fn freshness_text(elapsed_seconds: u64) -> Seq<char> {
    if elapsed_seconds <= 9 {
        "Live"@
    } else if elapsed_seconds <= 59 {
        decimal(elapsed_seconds as nat) + "s ago"@
    } else {
        decimal((elapsed_seconds / 60) as nat) + "m ago"@
    }
}

/// `Live` for under ten seconds, then whole seconds, then whole minutes.
pub fn freshness(elapsed_seconds: u64) -> (r: String)
    ensures
        r@ == freshness_text(elapsed_seconds),
{
    if elapsed_seconds <= 9 {
        String::from_str("Live")
    } else if elapsed_seconds <= 59 {
        let mut text = decimal_string(elapsed_seconds);
        text.append("s ago");
        text
    } else {
        let mut text = decimal_string(elapsed_seconds / 60);
        text.append("m ago");
        text
    }
}

/// The settings page's name for a refresh interval.
pub fn refresh_interval_label(seconds: u64) -> (r: &'static str)
    ensures
        r@ == if seconds == 30 {
            "30 seconds"@
        } else if seconds == 60 {
            "1 minute"@
        } else if seconds == 300 {
            "5 minutes"@
        } else if seconds == 900 {
            "15 minutes"@
        } else {
            "Custom"@
        },
{
    if seconds == 30 {
        "30 seconds"
    } else if seconds == 60 {
        "1 minute"
    } else if seconds == 300 {
        "5 minutes"
    } else if seconds == 900 {
        "15 minutes"
    } else {
        "Custom"
    }
}

/// Whether something done periodically is due: it never ran, or it ran at
/// least `period_seconds` ago (`elapsed_seconds` is the whole seconds since).
pub fn is_due(elapsed_seconds: Option<u64>, period_seconds: u64) -> (r: bool)
    ensures
        r == match elapsed_seconds {
            None => true,
            Some(e) => e >= period_seconds,
        },
{
    match elapsed_seconds {
        None => true,
        Some(e) => e >= period_seconds,
    }
}

/// Two quit shortcuts within half a second quit the app.
pub fn is_double_press(since_previous_nanos: Option<u128>) -> (r: bool)
    ensures
        r == match since_previous_nanos {
            None => false,
            Some(n) => n < 500_000_000,
        },
{
    match since_previous_nanos {
        None => false,
        Some(n) => n < 500_000_000,
    }
}

/// The title and text of the help popover behind an info button.
pub fn info_text(tag: isize) -> (r: (&'static str, &'static str))
    ensures
        tag == 1 ==> r.0@ == "General Settings"@
            && r.1@ == "Quota data is read from the authenticated Antigravity service running locally on this Mac."@,
        tag == 2 ==> r.0@ == "System Settings"@
            && r.1@ == "Launch at Login starts Grav Tray automatically after you sign in to your Mac."@,
        tag != 1 && tag != 2 ==> r.0@ == "General Shortcuts"@
            && r.1@ == "⌘ 0   : Toggle Settings\n⌘ R   : Refresh Quota\n⌘ Q Q : Quit App"@,
{
    if tag == 1 {
        ("General Settings", "Quota data is read from the authenticated Antigravity service running locally on this Mac.")
    } else if tag == 2 {
        ("System Settings", "Launch at Login starts Grav Tray automatically after you sign in to your Mac.")
    } else {
        ("General Shortcuts", "⌘ 0   : Toggle Settings\n⌘ R   : Refresh Quota\n⌘ Q Q : Quit App")
    }
}


/// Outer padding above and below the popover content.
pub const VERTICAL_PADDING: u64 = 8;
/// Height of the popover header.
pub const HEADER_HEIGHT: u64 = 28;
/// Height of the popover footer.
pub const FOOTER_HEIGHT: u64 = 32;
/// The popover is never shorter than the settings page.
pub const SETTINGS_MIN_HEIGHT: u64 = 320;
/// Gap between the header, the page and the footer.
pub const PAGE_GAP: u64 = 6;
/// Gap between two quota cards.
pub const CARD_GAP: u64 = 12;
/// Height of a quota card's title.
pub const CARD_HEADER_HEIGHT: u64 = 38;
/// Height of one bucket row in a card.
pub const QUOTA_ROW_HEIGHT: u64 = 43;
/// Height of the error banner.
pub const ERROR_HEIGHT: u64 = 42;
/// Height of the placeholder shown before any quota arrived.
pub const EMPTY_HEIGHT: u64 = 84;

/// How many buckets of a group are shown.
pub open spec fn enabled_count(group: QuotaGroup) -> nat {
    group_entries(group, group.buckets@).len()
}

/// The height of the cards of `groups` that show at least one bucket.
pub open spec fn cards_height(groups: Seq<QuotaGroup>) -> int
    decreases groups.len(),
{
    if groups.len() == 0 {
        0
    } else {
        cards_height(groups.drop_last()) + if enabled_count(groups.last()) > 0 {
            CARD_HEADER_HEIGHT + enabled_count(groups.last()) * QUOTA_ROW_HEIGHT
        } else {
            0
        }
    }
}

/// How many of `groups` show at least one bucket.
pub open spec fn card_count(groups: Seq<QuotaGroup>) -> int
    decreases groups.len(),
{
    if groups.len() == 0 {
        0
    } else {
        card_count(groups.drop_last()) + if enabled_count(groups.last()) > 0 { 1int } else { 0int }
    }
}

/// The height of the quota page's body.
pub open spec fn body_height(summary: Option<QuotaSummary>) -> int {
    match summary {
        None => EMPTY_HEIGHT as int,
        Some(s) => cards_height(s.groups@) + CARD_GAP * if card_count(s.groups@) > 0 {
            card_count(s.groups@) - 1
        } else {
            0
        },
    }
}

/// The popover's height for the quota page.
pub open spec fn popover_height(summary: Option<QuotaSummary>, has_error: bool) -> int {
    let total = VERTICAL_PADDING + HEADER_HEIGHT + PAGE_GAP + body_height(summary) + PAGE_GAP
        + (if has_error { ERROR_HEIGHT } else { 0 }) + FOOTER_HEIGHT + VERTICAL_PADDING;
    if total > SETTINGS_MIN_HEIGHT {
        total
    } else {
        SETTINGS_MIN_HEIGHT as int
    }
}

/// `x`, or `u64::MAX` when it does not fit.
pub open spec fn saturated(x: int) -> int {
    if x > u64::MAX {
        u64::MAX as int
    } else {
        x
    }
}

proof fn lemma_saturated_add(x: int, y: int)
    requires
        x >= 0,
        y >= 0,
    ensures
        saturated(saturated(x) + saturated(y)) == saturated(x + y),
{
}

fn add_saturating(a: u64, b: u64) -> (r: u64)
    ensures
        r == saturated(a + b),
{
    match a.checked_add(b) {
        Some(v) => v,
        None => u64::MAX,
    }
}

fn mul_saturating(a: u64, b: u64) -> (r: u64)
    ensures
        r == saturated(a * b),
{
    match a.checked_mul(b) {
        Some(v) => v,
        None => u64::MAX,
    }
}

/// How many buckets of `group` are shown.
pub fn enabled_bucket_count(group: &QuotaGroup) -> (r: usize)
    ensures
        r == enabled_count(*group),
{
    let mut count: usize = 0;
    let mut j: usize = 0;
    while j < group.buckets.len()
        invariant
            j <= group.buckets@.len(),
            count <= j,
            count == group_entries(*group, group.buckets@.take(j as int)).len(),
        decreases group.buckets@.len() - j,
    {
        proof {
            assert(group.buckets@.take(j + 1).drop_last() =~= group.buckets@.take(j as int));
        }
        if group.buckets[j].is_enabled() {
            count += 1;
        }
        j += 1;
    }
    proof {
        assert(group.buckets@.take(j as int) =~= group.buckets@);
    }
    count
}

/// The popover's height, in points, for the quota page: one card per group
/// with shown buckets, the error banner when there is an error, and never
/// less than the settings page needs. (Saturates at `u64::MAX`.)
pub fn content_height(summary: Option<&QuotaSummary>, has_error: bool) -> (r: u64)
    ensures
        r == saturated(popover_height(
            match summary {
                Some(s) => Some(*s),
                None => None,
            },
            has_error,
        )),
        r >= SETTINGS_MIN_HEIGHT,
{
    let ghost spec_summary = match summary {
        Some(s) => Some(*s),
        None => None,
    };
    let body: u64 = match summary {
        None => EMPTY_HEIGHT,
        Some(s) => {
            let mut height: u64 = 0;
            let mut cards: usize = 0;
            let mut i: usize = 0;
            while i < s.groups.len()
                invariant
                    i <= s.groups@.len(),
                    height == saturated(cards_height(s.groups@.take(i as int))),
                    cards == card_count(s.groups@.take(i as int)),
                    cards <= i,
                    cards_height(s.groups@.take(i as int)) >= 0,
                decreases s.groups@.len() - i,
            {
                proof {
                    assert(s.groups@.take(i + 1).drop_last() =~= s.groups@.take(i as int));
                }
                let count = enabled_bucket_count(&s.groups[i]);
                if count > 0 {
                    let rows = mul_saturating(QUOTA_ROW_HEIGHT, count as u64);
                    let card = add_saturating(CARD_HEADER_HEIGHT, rows);
                    proof {
                        lemma_saturated_add(CARD_HEADER_HEIGHT as int, QUOTA_ROW_HEIGHT * count);
                        lemma_saturated_add(cards_height(s.groups@.take(i as int)),
                            CARD_HEADER_HEIGHT + QUOTA_ROW_HEIGHT * count);
                    }
                    height = add_saturating(height, card);
                    cards += 1;
                }
                i += 1;
            }
            proof {
                assert(s.groups@.take(i as int) =~= s.groups@);
            }
            let gaps_count: u64 = if cards > 0 { (cards - 1) as u64 } else { 0 };
            let gaps = mul_saturating(CARD_GAP, gaps_count);
            proof {
                lemma_saturated_add(cards_height(s.groups@), CARD_GAP * gaps_count);
            }
            add_saturating(height, gaps)
        },
    };
    let error: u64 = if has_error { ERROR_HEIGHT } else { 0 };
    let fixed: u64 = VERTICAL_PADDING + HEADER_HEIGHT + PAGE_GAP + PAGE_GAP + error + FOOTER_HEIGHT + VERTICAL_PADDING;
    proof {
        lemma_saturated_add(body_height(spec_summary), fixed as int);
    }
    let total = add_saturating(body, fixed);
    if total > SETTINGS_MIN_HEIGHT {
        total
    } else {
        SETTINGS_MIN_HEIGHT
    }
}


/// The settings picker's entry for a bucket: `<group> — <bucket>`.
pub fn picker_title(group: &QuotaGroup, bucket: &QuotaBucket) -> (r: String)
    ensures
        r@ == group.display_name@ + " — "@ + bucket.display_name@,
{
    let mut title = group.display_name.clone();
    title.append(" — ");
    title.append(bucket.display_name.as_str());
    title
}

/// The last position before `end` whose key is `selection`, or -1.
pub open spec fn last_key_index(entries: Seq<(QuotaGroup, QuotaBucket)>, selection: Seq<char>, end: int) -> int
    decreases end,
{
    if end <= 0 || end > entries.len() {
        -1
    } else if key_of(entries[end - 1].0, entries[end - 1].1) == selection {
        end - 1
    } else {
        last_key_index(entries, selection, end - 1)
    }
}

/// The picker entry to select: the last enabled bucket whose key is the
/// selection, else the first entry.
pub fn picker_selection(summary: &QuotaSummary, selection: &str) -> (r: usize)
    ensures
        ({
            let es = enabled_entries(*summary);
            let k = last_key_index(es, selection@, es.len() as int);
            r == if k >= 0 { k } else { 0 }
        }),
{
    let buckets = crate::quota::enabled_buckets(summary);
    let ghost es = enabled_entries(*summary);
    let wanted = selection.to_owned();
    let mut selected: usize = 0;
    let mut found = false;
    let mut i: usize = 0;
    while i < buckets.len()
        invariant
            es == pair_values(buckets@),
            wanted@ == selection@,
            i <= buckets@.len(),
            found ==> selected as int == last_key_index(es, selection@, i as int) && selected < i,
            !found ==> last_key_index(es, selection@, i as int) == -1 && selected == 0,
        decreases buckets@.len() - i,
    {
        let (group, bucket) = buckets[i];
        proof {
            assert(es[i as int] == (*group, *bucket));
        }
        if crate::quota::selection_key(group, bucket) == wanted {
            selected = i;
            found = true;
        }
        i += 1;
    }
    selected
}

/// The selection key behind a picker entry; a negative index (nothing
/// selected) counts as the first entry, and an index past the end picks
/// nothing.
pub fn picker_choice(summary: &QuotaSummary, index: isize) -> (r: Option<String>)
    ensures
        ({
            let es = enabled_entries(*summary);
            let i: int = if index < 0 { 0 } else { index as int };
            if i < es.len() {
                r matches Some(key) && key@ == key_of(es[i].0, es[i].1)
            } else {
                r is None
            }
        }),
{
    let buckets = crate::quota::enabled_buckets(summary);
    let ghost es = enabled_entries(*summary);
    let position: usize = if index < 0 { 0 } else { index as usize };
    if position < buckets.len() {
        let (group, bucket) = buckets[position];
        proof {
            assert(es[position as int] == (*group, *bucket));
        }
        Some(crate::quota::selection_key(group, bucket))
    } else {
        None
    }
}

/// The groups that get a card: those with at least one shown bucket.
pub open spec fn visible_groups_of(groups: Seq<QuotaGroup>) -> Seq<QuotaGroup>
    decreases groups.len(),
{
    if groups.len() == 0 {
        seq![]
    } else if enabled_count(groups.last()) > 0 {
        visible_groups_of(groups.drop_last()).push(groups.last())
    } else {
        visible_groups_of(groups.drop_last())
    }
}

/// The groups that get a card, in order.
pub fn visible_groups(summary: &QuotaSummary) -> (r: Vec<&QuotaGroup>)
    ensures
        r@.map_values(|g: &QuotaGroup| *g) == visible_groups_of(summary.groups@),
{
    let mut r: Vec<&QuotaGroup> = Vec::new();
    let mut i: usize = 0;
    while i < summary.groups.len()
        invariant
            i <= summary.groups@.len(),
            r@.map_values(|g: &QuotaGroup| *g) == visible_groups_of(summary.groups@.take(i as int)),
        decreases summary.groups@.len() - i,
    {
        proof {
            assert(summary.groups@.take(i + 1).drop_last() =~= summary.groups@.take(i as int));
        }
        let group = &summary.groups[i];
        if enabled_bucket_count(group) > 0 {
            let ghost before = r@;
            r.push(group);
            proof {
                assert(r@.map_values(|g: &QuotaGroup| *g) =~= before.map_values(|g: &QuotaGroup| *g).push(*group));
            }
        }
        i += 1;
    }
    proof {
        assert(summary.groups@.take(i as int) =~= summary.groups@);
    }
    r
}

/// The shown buckets of a group, in order.
pub fn shown_buckets(group: &QuotaGroup) -> (r: Vec<&QuotaBucket>)
    ensures
        r@.map_values(|b: &QuotaBucket| (*group, *b)) == group_entries(*group, group.buckets@),
{
    let mut r: Vec<&QuotaBucket> = Vec::new();
    let mut j: usize = 0;
    while j < group.buckets.len()
        invariant
            j <= group.buckets@.len(),
            r@.map_values(|b: &QuotaBucket| (*group, *b)) == group_entries(*group, group.buckets@.take(j as int)),
        decreases group.buckets@.len() - j,
    {
        proof {
            assert(group.buckets@.take(j + 1).drop_last() =~= group.buckets@.take(j as int));
        }
        let bucket = &group.buckets[j];
        if bucket.is_enabled() {
            let ghost before = r@;
            r.push(bucket);
            proof {
                assert(r@.map_values(|b: &QuotaBucket| (*group, *b))
                    =~= before.map_values(|b: &QuotaBucket| (*group, *b)).push((*group, *bucket)));
            }
        }
        j += 1;
    }
    proof {
        assert(group.buckets@.take(j as int) =~= group.buckets@);
    }
    r
}

} // verus!
