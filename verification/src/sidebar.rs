//! The order of the performance page's sidebar.
//!
//! Every device row has a page name such as `cpu`, `disk-sda` or `net-eth0`. The user
//! may drag rows into any order; that order is saved as a list of page names. When
//! devices appear they are merged into the saved list next to their siblings, and the
//! list is kept from growing without bound by dropping devices that are gone.

use vstd::prelude::*;
use crate::text::{
    chars_of, has_prefix, is_nonempty, join_strings, join_with, lemma_filter_all,
    lemma_lex_asymmetric, lemma_lex_irreflexive, lemma_lex_total, lemma_lex_transitive, lex_less,
    lex_lt, lemma_split_join, same_chars, split_entries, split_nonempty, views,
};

verus! {

/// Largest number of page names the saved sidebar order keeps once devices are gone.
pub const MAX_REMEMBERED_DEVICES: usize = 256;

/// Number of device categories; names in none of them sort after all of them.
pub const CATEGORY_COUNT: u8 = 7;

/// The prefix of page names in category `i`, in the default order of the sidebar.
pub open spec fn category_prefix(i: int) -> Seq<char> {
    if i == 0 {
        "cpu"@
    } else if i == 1 {
        "memory"@
    } else if i == 2 {
        "disk"@
    } else if i == 3 {
        "net"@
    } else if i == 4 {
        "gpu"@
    } else if i == 5 {
        "fan"@
    } else {
        "battery"@
    }
}

/// The first category, from `i` on, whose prefix starts `name`; `CATEGORY_COUNT` if none.
pub open spec fn category_from(name: Seq<char>, i: int) -> int
    decreases 7 - i,
{
    if i >= 7 {
        7
    } else if category_prefix(i).is_prefix_of(name) {
        i
    } else {
        category_from(name, i + 1)
    }
}

/// The category of a page name: the index of the first category prefix it starts with,
/// or `CATEGORY_COUNT` when it starts with none of them.
pub open spec fn category(name: Seq<char>) -> int {
    category_from(name, 0)
}

/// The canonical order of page names: by category, then by name.
pub open spec fn key_lt(a: Seq<char>, b: Seq<char>) -> bool {
    category(a) < category(b) || (category(a) == category(b) && lex_lt(a, b))
}

proof fn lemma_category_range(name: Seq<char>, i: int)
    requires
        0 <= i <= 7,
    ensures
        i <= category_from(name, i) <= 7,
    decreases 7 - i,
{
    if i < 7 && !category_prefix(i).is_prefix_of(name) {
        lemma_category_range(name, i + 1);
    }
}

pub proof fn lemma_key_irreflexive(a: Seq<char>)
    ensures
        !key_lt(a, a),
{
    lemma_lex_irreflexive(a);
}

pub proof fn lemma_key_asymmetric(a: Seq<char>, b: Seq<char>)
    ensures
        !(key_lt(a, b) && key_lt(b, a)),
{
    lemma_lex_asymmetric(a, b);
}

pub proof fn lemma_key_transitive(a: Seq<char>, b: Seq<char>, c: Seq<char>)
    requires
        key_lt(a, b),
        key_lt(b, c),
    ensures
        key_lt(a, c),
{
    if category(a) == category(b) && category(b) == category(c) {
        lemma_lex_transitive(a, b, c);
    }
}

pub proof fn lemma_key_total(a: Seq<char>, b: Seq<char>)
    ensures
        a != b ==> key_lt(a, b) || key_lt(b, a),
{
    lemma_lex_total(a, b);
}

fn category_prefix_str(i: u8) -> (prefix: &'static str)
    requires
        i < 7,
    ensures
        prefix@ == category_prefix(i as int),
{
    if i == 0 {
        "cpu"
    } else if i == 1 {
        "memory"
    } else if i == 2 {
        "disk"
    } else if i == 3 {
        "net"
    } else if i == 4 {
        "gpu"
    } else if i == 5 {
        "fan"
    } else {
        "battery"
    }
}

fn category_of_chars(name: &Vec<char>) -> (cat: u8)
    ensures
        cat == category(name@),
{
    let mut i: u8 = 0;
    while i < CATEGORY_COUNT
        invariant
            i <= 7,
            category(name@) == category_from(name@, i as int),
        decreases 7 - i,
    {
        if has_prefix(name, category_prefix_str(i)) {
            return i;
        }
        i += 1;
    }
    7
}

/// The sort key of a page name: its category, then the name itself.
pub fn canonical_key(name: &str) -> (key: (u8, &str))
    ensures
        key.0 == category(name@),
        key.1 == name,
{
    let chars = chars_of(name);
    (category_of_chars(&chars), name)
}

/// Whether page name `a` comes before `b` in the canonical order.
pub fn key_less(a: &str, b: &str) -> (less: bool)
    ensures
        less == key_lt(a@, b@),
{
    let ac = chars_of(a);
    let bc = chars_of(b);
    let ka = category_of_chars(&ac);
    let kb = category_of_chars(&bc);
    ka < kb || (ka == kb && lex_less(&ac, &bc))
}

/// The part of a page name before its first `-`, or the whole name.
pub open spec fn first_segment(name: Seq<char>) -> Seq<char>
    decreases name.len(),
{
    if name.len() == 0 || name[0] == '-' {
        Seq::empty()
    } else {
        seq![name[0]] + first_segment(name.drop_first())
    }
}

/// The view action that shows the category of a page, keyed by the part of the page
/// name before its first `-`.
pub open spec fn view_action(name: Seq<char>) -> Option<Seq<char>> {
    let segment = first_segment(name);
    if segment == "cpu"@ {
        Some("cpu"@)
    } else if segment == "memory"@ {
        Some("memory"@)
    } else if segment == "disk"@ {
        Some("disk"@)
    } else if segment == "net"@ {
        Some("network"@)
    } else if segment == "gpu"@ {
        Some("gpu"@)
    } else if segment == "fan"@ {
        Some("fan"@)
    } else if segment == "battery"@ {
        Some("battery"@)
    } else {
        None
    }
}

fn first_segment_of(name: &str) -> (segment: Vec<char>)
    ensures
        segment@ == first_segment(name@),
{
    let chars = chars_of(name);
    let mut end: usize = 0;
    while end < chars.len() && chars[end] != '-'
        invariant
            chars@ == name@,
            end <= chars@.len(),
            forall|j: int| 0 <= j < end ==> chars@[j] != '-',
        decreases chars.len() - end,
    {
        end += 1;
    }
    proof {
        lemma_first_segment_at(name@, end as int);
    }
    let mut segment: Vec<char> = Vec::new();
    let mut i: usize = 0;
    while i < end
        invariant
            chars@ == name@,
            end <= chars@.len(),
            i <= end,
            segment@ == chars@.take(i as int),
        decreases end - i,
    {
        segment.push(chars[i]);
        i += 1;
        assert(segment@ =~= chars@.take(i as int));
    }
    segment
}

proof fn lemma_first_segment_at(name: Seq<char>, end: int)
    requires
        0 <= end <= name.len(),
        forall|j: int| 0 <= j < end ==> name[j] != '-',
        end == name.len() || name[end] == '-',
    ensures
        first_segment(name) == name.take(end),
    decreases end,
{
    if end == 0 {
        assert(name.take(0) =~= Seq::<char>::empty());
    } else {
        lemma_first_segment_at(name.drop_first(), end - 1);
        assert(name.take(end) =~= seq![name[0]] + name.drop_first().take(end - 1));
    }
}

fn chars_equal_str(a: &Vec<char>, s: &str) -> (same: bool)
    ensures
        same == (a@ == s@),
{
    let sc = chars_of(s);
    same_chars(a, &sc)
}

/// The view action that shows the category of page `page_name`, or `None` for a page
/// outside the known categories.
pub fn view_action_name(page_name: &str) -> (action: Option<&'static str>)
    ensures
        action is Some <==> view_action(page_name@) is Some,
        action is Some ==> action->0@ == view_action(page_name@)->0,
{
    let segment = first_segment_of(page_name);
    if chars_equal_str(&segment, "cpu") {
        Some("cpu")
    } else if chars_equal_str(&segment, "memory") {
        Some("memory")
    } else if chars_equal_str(&segment, "disk") {
        Some("disk")
    } else if chars_equal_str(&segment, "net") {
        Some("network")
    } else if chars_equal_str(&segment, "gpu") {
        Some("gpu")
    } else if chars_equal_str(&segment, "fan") {
        Some("fan")
    } else if chars_equal_str(&segment, "battery") {
        Some("battery")
    } else {
        None
    }
}

/// `x` placed into `sorted` before the first entry that does not come before it.
pub open spec fn insert_by_key(sorted: Seq<Seq<char>>, x: Seq<char>) -> Seq<Seq<char>>
    decreases sorted.len(),
{
    if sorted.len() == 0 {
        seq![x]
    } else if key_lt(sorted[0], x) {
        seq![sorted[0]] + insert_by_key(sorted.drop_first(), x)
    } else {
        seq![x] + sorted
    }
}

/// The names of `s` in the canonical order. The canonical order is total on distinct
/// names, so this is the one arrangement of `s` that is sorted (see
/// `lemma_sorted_by_key_sorted` and `lemma_sorted_by_key_permutes`).
pub open spec fn sorted_by_key(s: Seq<Seq<char>>) -> Seq<Seq<char>>
    decreases s.len(),
{
    if s.len() == 0 {
        Seq::empty()
    } else {
        insert_by_key(sorted_by_key(s.drop_last()), s.last())
    }
}

/// No entry of `s` comes before an earlier one in the canonical order.
pub open spec fn is_key_sorted(s: Seq<Seq<char>>) -> bool {
    forall|i: int, j: int| 0 <= i < j < s.len() ==> !key_lt(#[trigger] s[j], #[trigger] s[i])
}

proof fn lemma_insert_at(s: Seq<Seq<char>>, x: Seq<char>, p: int)
    requires
        0 <= p <= s.len(),
        forall|j: int| 0 <= j < p ==> key_lt(#[trigger] s[j], x),
        p < s.len() ==> !key_lt(s[p], x),
    ensures
        insert_by_key(s, x) == s.insert(p, x),
    decreases p,
{
    if p == 0 {
        if s.len() == 0 {
            assert(s.insert(0, x) =~= seq![x]);
        } else {
            assert(s.insert(0, x) =~= seq![x] + s);
        }
    } else {
        lemma_insert_at(s.drop_first(), x, p - 1);
        assert(s.insert(p, x) =~= seq![s[0]] + s.drop_first().insert(p - 1, x));
    }
}

proof fn lemma_insert_by_key_multiset(s: Seq<Seq<char>>, x: Seq<char>)
    ensures
        insert_by_key(s, x).to_multiset() == s.to_multiset().insert(x),
    decreases s.len(),
{
    broadcast use vstd::seq_lib::group_to_multiset_ensures;

    if s.len() == 0 {
        assert(seq![x] =~= Seq::<Seq<char>>::empty().push(x));
    } else if key_lt(s[0], x) {
        lemma_insert_by_key_multiset(s.drop_first(), x);
        vstd::seq_lib::lemma_multiset_commutative(seq![s[0]], insert_by_key(s.drop_first(), x));
        vstd::seq_lib::lemma_multiset_commutative(seq![s[0]], s.drop_first());
        assert(seq![s[0]] + s.drop_first() =~= s);
        assert(seq![s[0]] =~= Seq::<Seq<char>>::empty().push(s[0]));
    } else {
        vstd::seq_lib::lemma_multiset_commutative(seq![x], s);
        assert(seq![x] =~= Seq::<Seq<char>>::empty().push(x));
    }
}

proof fn lemma_insert_by_key_sorted(s: Seq<Seq<char>>, x: Seq<char>)
    requires
        is_key_sorted(s),
    ensures
        is_key_sorted(insert_by_key(s, x)),
        insert_by_key(s, x).len() == s.len() + 1,
        forall|y: Seq<char>| #[trigger] insert_by_key(s, x).contains(y) <==> (s.contains(y) || y == x),
    decreases s.len(),
{
    if s.len() == 0 {
        assert(seq![x][0] == x);
    } else if key_lt(s[0], x) {
        let rest = s.drop_first();
        assert(is_key_sorted(rest)) by {
            assert forall|i: int, j: int| 0 <= i < j < rest.len() implies !key_lt(#[trigger] rest[j], #[trigger] rest[i]) by {
                assert(rest[i] == s[i + 1] && rest[j] == s[j + 1]);
            }
        }
        lemma_insert_by_key_sorted(rest, x);
        let t = insert_by_key(rest, x);
        let r = seq![s[0]] + t;
        assert forall|y: Seq<char>| #[trigger] r.contains(y) <==> (s.contains(y) || y == x) by {
            if r.contains(y) {
                let k = choose|k: int| 0 <= k < r.len() && r[k] == y;
                if k > 0 {
                    assert(t[k - 1] == y);
                    assert(t.contains(y));
                    if rest.contains(y) {
                        let m = choose|m: int| 0 <= m < rest.len() && rest[m] == y;
                        assert(s[m + 1] == y);
                    }
                }
            }
            if s.contains(y) {
                let k = choose|k: int| 0 <= k < s.len() && s[k] == y;
                if k > 0 {
                    assert(rest[k - 1] == y);
                    assert(rest.contains(y));
                    assert(t.contains(y));
                    let m = choose|m: int| 0 <= m < t.len() && t[m] == y;
                    assert(r[m + 1] == y);
                } else {
                    assert(r[0] == y);
                }
            }
            if y == x {
                assert(t.contains(x));
                let m = choose|m: int| 0 <= m < t.len() && t[m] == x;
                assert(r[m + 1] == x);
            }
        }
        assert forall|i: int, j: int| 0 <= i < j < r.len() implies !key_lt(#[trigger] r[j], #[trigger] r[i]) by {
            if i == 0 {
                let y = r[j];
                assert(t[j - 1] == y);
                assert(t.contains(y));
                if y == x {
                    lemma_key_asymmetric(s[0], x);
                } else {
                    assert(s.contains(y));
                    let m = choose|m: int| 0 <= m < s.len() && s[m] == y;
                    if m > 0 {
                        assert(!key_lt(s[m], s[0]));
                    } else {
                        lemma_key_irreflexive(s[0]);
                    }
                }
            } else {
                assert(r[i] == t[i - 1] && r[j] == t[j - 1]);
            }
        }
    } else {
        let r = seq![x] + s;
        assert forall|y: Seq<char>| #[trigger] r.contains(y) <==> (s.contains(y) || y == x) by {
            if r.contains(y) {
                let k = choose|k: int| 0 <= k < r.len() && r[k] == y;
                if k > 0 {
                    assert(s[k - 1] == y);
                }
            }
            if s.contains(y) {
                let k = choose|k: int| 0 <= k < s.len() && s[k] == y;
                assert(r[k + 1] == y);
            }
            if y == x {
                assert(r[0] == x);
            }
        }
        assert forall|i: int, j: int| 0 <= i < j < r.len() implies !key_lt(#[trigger] r[j], #[trigger] r[i]) by {
            if i == 0 {
                // every entry of `s` is at least `s[0]`, which is at least `x`
                let y = r[j];
                assert(y == s[j - 1]);
                if j - 1 > 0 {
                    assert(!key_lt(s[j - 1], s[0]));
                }
                if key_lt(y, x) {
                    if y == s[0] {
                    } else {
                        lemma_key_total(y, s[0]);
                        if key_lt(y, s[0]) {
                        } else {
                            lemma_key_transitive(s[0], y, x);
                        }
                    }
                }
            } else {
                assert(r[i] == s[i - 1] && r[j] == s[j - 1]);
            }
        }
    }
}

/// The canonical arrangement is sorted and holds the same names, each as often.
pub proof fn lemma_sorted_by_key_sorted(s: Seq<Seq<char>>)
    ensures
        is_key_sorted(sorted_by_key(s)),
        sorted_by_key(s).len() == s.len(),
    decreases s.len(),
{
    if s.len() > 0 {
        lemma_sorted_by_key_sorted(s.drop_last());
        lemma_insert_by_key_sorted(sorted_by_key(s.drop_last()), s.last());
    }
}

/// Sorting keeps every name, each as often as before.
pub proof fn lemma_sorted_by_key_permutes(s: Seq<Seq<char>>)
    ensures
        sorted_by_key(s).to_multiset() == s.to_multiset(),
    decreases s.len(),
{
    broadcast use vstd::seq_lib::group_to_multiset_ensures;

    if s.len() > 0 {
        lemma_sorted_by_key_permutes(s.drop_last());
        lemma_insert_by_key_multiset(sorted_by_key(s.drop_last()), s.last());
        assert(s.drop_last().push(s.last()) =~= s);
    }
}

fn sort_by_key(names: Vec<String>) -> (sorted: Vec<String>)
    ensures
        views(sorted@) == sorted_by_key(views(names@)),
{
    let mut sorted: Vec<String> = Vec::new();
    let mut i: usize = 0;
    while i < names.len()
        invariant
            i <= names@.len(),
            views(sorted@) == sorted_by_key(views(names@).take(i as int)),
        decreases names.len() - i,
    {
        let x = names[i].clone();
        let mut p: usize = 0;
        while p < sorted.len() && key_less(sorted[p].as_str(), x.as_str())
            invariant
                p <= sorted@.len(),
                forall|j: int| 0 <= j < p ==> key_lt(#[trigger] views(sorted@)[j], x@),
            decreases sorted.len() - p,
        {
            p += 1;
        }
        proof {
            let t = views(names@).take(i + 1);
            assert(t.drop_last() =~= views(names@).take(i as int));
            assert(t.last() == x@);
            lemma_insert_at(views(sorted@), x@, p as int);
        }
        let ghost before = sorted@;
        sorted.insert(p, x);
        assert(views(sorted@) =~= views(before).insert(p as int, x@));
        i += 1;
    }
    assert(views(names@).take(names@.len() as int) =~= views(names@));
    sorted
}

/// The three ways, tried in turn, of finding where a new page name joins the order:
/// after the last sibling (same category) that sorts before it, else after the last
/// sibling, else after the last name that comes before it in the canonical order.
pub open spec fn insertion_rule(rule: int, known: Seq<char>, name: Seq<char>) -> bool {
    if rule == 0 {
        category(known) == category(name) && lex_lt(known, name)
    } else if rule == 1 {
        category(known) == category(name)
    } else {
        key_lt(known, name)
    }
}

/// The index of the last entry of `order` that `rule` selects for `name`, or -1.
pub open spec fn last_match(order: Seq<Seq<char>>, rule: int, name: Seq<char>) -> int
    decreases order.len(),
{
    if order.len() == 0 {
        -1
    } else if insertion_rule(rule, order.last(), name) {
        order.len() - 1
    } else {
        last_match(order.drop_last(), rule, name)
    }
}

/// Where a new page name is inserted into `order`: just after the entry that the first
/// rule with a match selects, or at the top when no rule matches.
pub open spec fn insertion_point(order: Seq<Seq<char>>, name: Seq<char>) -> int {
    if last_match(order, 0, name) >= 0 {
        last_match(order, 0, name) + 1
    } else if last_match(order, 1, name) >= 0 {
        last_match(order, 1, name) + 1
    } else {
        last_match(order, 2, name) + 1
    }
}

/// `order` with `name` merged in: unchanged when it already holds `name`.
pub open spec fn merge_one(order: Seq<Seq<char>>, name: Seq<char>) -> Seq<Seq<char>> {
    if order.contains(name) {
        order
    } else {
        order.insert(insertion_point(order, name), name)
    }
}

/// `order` with the names of `names` merged in one after the other.
pub open spec fn merged_order(order: Seq<Seq<char>>, names: Seq<Seq<char>>) -> Seq<Seq<char>>
    decreases names.len(),
{
    if names.len() == 0 {
        order
    } else {
        merge_one(merged_order(order, names.drop_last()), names.last())
    }
}

/// The saved order after the devices `present` were merged into it: new names are
/// taken in the canonical order.
pub open spec fn merge_result(order: Seq<Seq<char>>, present: Seq<Seq<char>>) -> Seq<Seq<char>> {
    merged_order(order, sorted_by_key(present))
}

proof fn lemma_last_match_range(order: Seq<Seq<char>>, rule: int, name: Seq<char>)
    ensures
        -1 <= last_match(order, rule, name) < order.len(),
        last_match(order, rule, name) >= 0 ==> insertion_rule(
            rule,
            order[last_match(order, rule, name)],
            name,
        ),
        forall|j: int|
            last_match(order, rule, name) < j < order.len() ==> !insertion_rule(
                rule,
                #[trigger] order[j],
                name,
            ),
    decreases order.len(),
{
    if order.len() > 0 && !insertion_rule(rule, order.last(), name) {
        lemma_last_match_range(order.drop_last(), rule, name);
        assert forall|j: int|
            last_match(order, rule, name) < j < order.len() implies !insertion_rule(
                rule,
                #[trigger] order[j],
                name,
            ) by {
            if j < order.len() - 1 {
                assert(order[j] == order.drop_last()[j]);
            }
        }
    }
}

proof fn lemma_insertion_point_range(order: Seq<Seq<char>>, name: Seq<char>)
    ensures
        0 <= insertion_point(order, name) <= order.len(),
{
    lemma_last_match_range(order, 0, name);
    lemma_last_match_range(order, 1, name);
    lemma_last_match_range(order, 2, name);
}

fn name_chars(s: &String) -> (chars: Vec<char>)
    ensures
        chars@ == s@,
{
    chars_of(s.as_str())
}

fn rule_holds(rule: u8, known: &Vec<char>, name: &Vec<char>, name_cat: u8) -> (holds: bool)
    requires
        name_cat == category(name@),
    ensures
        holds == insertion_rule(rule as int, known@, name@),
{
    let known_cat = category_of_chars(known);
    if rule == 0 {
        known_cat == name_cat && lex_less(known, name)
    } else if rule == 1 {
        known_cat == name_cat
    } else {
        known_cat < name_cat || (known_cat == name_cat && lex_less(known, name))
    }
}

fn last_match_index(order: &Vec<String>, rule: u8, name: &Vec<char>, name_cat: u8) -> (found: i64)
    requires
        name_cat == category(name@),
        order@.len() < i64::MAX,
    ensures
        found == last_match(views(order@), rule as int, name@),
{
    let mut i: usize = order.len();
    assert(views(order@).take(i as int) =~= views(order@));
    while i > 0
        invariant
            i <= order@.len(),
            order@.len() < i64::MAX,
            name_cat == category(name@),
            last_match(views(order@), rule as int, name@) == last_match(
                views(order@).take(i as int),
                rule as int,
                name@,
            ),
        decreases i,
    {
        let known = name_chars(&order[i - 1]);
        let ghost t = views(order@).take(i as int);
        assert(t.last() == known@);
        assert(t.drop_last() =~= views(order@).take(i - 1));
        if rule_holds(rule, &known, name, name_cat) {
            return (i - 1) as i64;
        }
        i -= 1;
    }
    -1
}

fn contains_name(order: &Vec<String>, name: &String) -> (found: bool)
    ensures
        found == views(order@).contains(name@),
{
    let mut i: usize = 0;
    while i < order.len()
        invariant
            i <= order@.len(),
            forall|j: int| 0 <= j < i ==> views(order@)[j] != name@,
        decreases order.len() - i,
    {
        if order[i] == *name {
            assert(views(order@)[i as int] == name@);
            return true;
        }
        i += 1;
    }
    false
}

fn insertion_index(order: &Vec<String>, name: &String) -> (at: usize)
    requires
        order@.len() < i64::MAX,
    ensures
        at == insertion_point(views(order@), name@),
{
    proof {
        lemma_last_match_range(views(order@), 0, name@);
        lemma_last_match_range(views(order@), 1, name@);
        lemma_last_match_range(views(order@), 2, name@);
        assert(views(order@).len() == order@.len());
    }
    let n = order.len();
    let chars = name_chars(name);
    let cat = category_of_chars(&chars);
    let a = last_match_index(order, 0, &chars, cat);
    if a >= 0 {
        return (a + 1) as usize;
    }
    let b = last_match_index(order, 1, &chars, cat);
    if b >= 0 {
        return (b + 1) as usize;
    }
    let c = last_match_index(order, 2, &chars, cat);
    (c + 1) as usize
}

/// Merges the devices `present` into the saved sidebar order: names already in
/// `order` stay where they are, and each new one, taken in the canonical order, joins
/// its siblings (see `insertion_point`).
pub fn merge_new_devices(order: &mut Vec<String>, present: Vec<String>)
    requires
        old(order)@.len() + present@.len() < i64::MAX,
    ensures
        views(final(order)@) == merge_result(views(old(order)@), views(present@)),
{
    let ghost start = views(order@);
    let sorted = sort_by_key(present);
    proof {
        lemma_sorted_by_key_sorted(views(present@));
        assert(views(sorted@).len() == sorted@.len());
    }
    let mut i: usize = 0;
    while i < sorted.len()
        invariant
            i <= sorted@.len(),
            views(sorted@) == sorted_by_key(views(present@)),
            order@.len() <= start.len() + i,
            start.len() + sorted@.len() < i64::MAX,
            views(order@) == merged_order(start, views(sorted@).take(i as int)),
        decreases sorted.len() - i,
    {
        let name = &sorted[i];
        proof {
            let t = views(sorted@).take(i + 1);
            assert(t.drop_last() =~= views(sorted@).take(i as int));
            assert(t.last() == name@);
        }
        if !contains_name(order, name) {
            let at = insertion_index(order, name);
            proof {
                lemma_insertion_point_range(views(order@), name@);
            }
            let ghost before = order@;
            order.insert(at, name.clone());
            assert(views(order@) =~= views(before).insert(at as int, name@));
        }
        i += 1;
    }
    assert(views(sorted@).take(sorted@.len() as int) =~= views(sorted@));
}

proof fn lemma_insert_contains(s: Seq<Seq<char>>, i: int, x: Seq<char>)
    requires
        0 <= i <= s.len(),
    ensures
        forall|y: Seq<char>| #[trigger] s.insert(i, x).contains(y) <==> (s.contains(y) || y == x),
{
    s.insert_ensures(i, x);
    assert forall|y: Seq<char>| #[trigger] s.insert(i, x).contains(y) <==> (s.contains(y) || y == x) by {
        let t = s.insert(i, x);
        if t.contains(y) {
            let k = choose|k: int| 0 <= k < t.len() && t[k] == y;
            if k < i {
                assert(s[k] == y);
            } else if k > i {
                assert(s[k - 1] == y);
            }
        }
        if s.contains(y) {
            let k = choose|k: int| 0 <= k < s.len() && s[k] == y;
            if k < i {
                assert(t[k] == y);
            } else {
                assert(t[k + 1] == y);
            }
        }
        if y == x {
            assert(t[i] == x);
        }
    }
}

proof fn lemma_merge_one_contains(order: Seq<Seq<char>>, x: Seq<char>)
    ensures
        forall|y: Seq<char>| #[trigger] merge_one(order, x).contains(y) <==> (order.contains(y) || y == x),
{
    if !order.contains(x) {
        lemma_insertion_point_range(order, x);
        lemma_insert_contains(order, insertion_point(order, x), x);
    }
}

/// After a merge the order holds exactly the names it held before and the names that
/// were merged in.
pub proof fn lemma_merged_order_contains(order: Seq<Seq<char>>, names: Seq<Seq<char>>)
    ensures
        forall|y: Seq<char>| #[trigger] merged_order(order, names).contains(y) <==> (order.contains(y) || names.contains(y)),
    decreases names.len(),
{
    if names.len() > 0 {
        lemma_merged_order_contains(order, names.drop_last());
        let m = merged_order(order, names.drop_last());
        lemma_merge_one_contains(m, names.last());
        assert forall|y: Seq<char>| #[trigger] merged_order(order, names).contains(y) <==> (order.contains(y) || names.contains(y)) by {
            assert(merge_one(m, names.last()).contains(y) <==> (m.contains(y) || y == names.last()));
            assert(m.contains(y) <==> (order.contains(y) || names.drop_last().contains(y)));
            if names.drop_last().contains(y) {
                let k = choose|k: int| 0 <= k < names.drop_last().len() && names.drop_last()[k] == y;
                assert(names[k] == y);
            }
            if names.contains(y) {
                let k = choose|k: int| 0 <= k < names.len() && names[k] == y;
                if k < names.len() - 1 {
                    assert(names.drop_last()[k] == y);
                }
            }
        }
    }
}

/// Merging names that the order already holds changes nothing.
pub proof fn lemma_merged_order_known(order: Seq<Seq<char>>, names: Seq<Seq<char>>)
    requires
        forall|k: int| 0 <= k < names.len() ==> order.contains(#[trigger] names[k]),
    ensures
        merged_order(order, names) == order,
    decreases names.len(),
{
    if names.len() > 0 {
        lemma_merged_order_known(order, names.drop_last());
        assert(order.contains(names[names.len() - 1]));
    }
}

/// A merge holds every device that was present, and everything the saved order held.
pub proof fn lemma_merge_result_contains(order: Seq<Seq<char>>, present: Seq<Seq<char>>)
    ensures
        forall|y: Seq<char>| #[trigger] merge_result(order, present).contains(y) <==> (order.contains(y) || present.contains(y)),
{
    broadcast use vstd::seq_lib::group_to_multiset_ensures;

    lemma_merged_order_contains(order, sorted_by_key(present));
    lemma_sorted_by_key_permutes(present);
    assert forall|y: Seq<char>| sorted_by_key(present).contains(y) <==> present.contains(y) by {
        assert(sorted_by_key(present).to_multiset().count(y) == present.to_multiset().count(y));
    }
}

/// Merging the same devices a second time leaves the order as the first merge made it.
pub proof fn lemma_merge_idempotent(order: Seq<Seq<char>>, present: Seq<Seq<char>>)
    ensures
        merge_result(merge_result(order, present), present) == merge_result(order, present),
{
    let once = merge_result(order, present);
    lemma_merge_result_contains(order, present);
    lemma_sorted_by_key_permutes(present);
    let sorted = sorted_by_key(present);
    assert forall|k: int| 0 <= k < sorted.len() implies once.contains(#[trigger] sorted[k]) by {
        broadcast use vstd::seq_lib::group_to_multiset_ensures;

        assert(sorted.to_multiset().count(sorted[k]) > 0);
        assert(present.contains(sorted[k]));
    }
    lemma_merged_order_known(once, sorted);
}

/// Once every present device is in the saved order, a merge does not move anything.
pub proof fn lemma_merge_known_devices(order: Seq<Seq<char>>, present: Seq<Seq<char>>)
    requires
        forall|k: int| 0 <= k < present.len() ==> order.contains(#[trigger] present[k]),
    ensures
        merge_result(order, present) == order,
{
    broadcast use vstd::seq_lib::group_to_multiset_ensures;

    lemma_sorted_by_key_permutes(present);
    let sorted = sorted_by_key(present);
    assert forall|k: int| 0 <= k < sorted.len() implies order.contains(#[trigger] sorted[k]) by {
        assert(sorted.to_multiset().count(sorted[k]) > 0);
        let j = choose|j: int| 0 <= j < present.len() && present[j] == sorted[k];
        assert(order.contains(present[j]));
    }
    lemma_merged_order_known(order, sorted);
}

proof fn lemma_filter_insert_skipped(
    s: Seq<Seq<char>>,
    i: int,
    x: Seq<char>,
    keep: spec_fn(Seq<char>) -> bool,
)
    requires
        0 <= i <= s.len(),
        !keep(x),
    ensures
        s.insert(i, x).filter(keep) == s.filter(keep),
{
    reveal(Seq::filter);
    let a = s.take(i);
    let b = s.skip(i);
    assert(s.insert(i, x) =~= a + seq![x] + b);
    assert(s =~= a + b);
    Seq::filter_distributes_over_add(a + seq![x], b, keep);
    Seq::filter_distributes_over_add(a, seq![x], keep);
    Seq::filter_distributes_over_add(a, b, keep);
    assert(seq![x] =~= Seq::<Seq<char>>::empty().push(x));
    Seq::<Seq<char>>::empty().lemma_filter_push(x, keep);
    assert(Seq::<Seq<char>>::empty().filter(keep) =~= Seq::<Seq<char>>::empty());
    assert(a.filter(keep) + Seq::<Seq<char>>::empty() =~= a.filter(keep));
}

/// A merge only inserts names: leaving out the names that were not in the saved order
/// gives back the saved order, in the same order.
pub proof fn lemma_merged_order_keeps_order(order: Seq<Seq<char>>, names: Seq<Seq<char>>)
    ensures
        merged_order(order, names).filter(|y: Seq<char>| order.contains(y)) == order,
    decreases names.len(),
{
    let keep = |y: Seq<char>| order.contains(y);
    if names.len() == 0 {
        assert forall|k: int| 0 <= k < order.len() implies keep(#[trigger] order[k]) by {
            assert(order.contains(order[k]));
        }
        order.lemma_all_neg_filter_empty(|y: Seq<char>| !keep(y));
        lemma_filter_all(order, keep);
    } else {
        lemma_merged_order_keeps_order(order, names.drop_last());
        let m = merged_order(order, names.drop_last());
        let x = names.last();
        if !m.contains(x) {
            lemma_merged_order_contains(order, names.drop_last());
            assert(!order.contains(x));
            lemma_insertion_point_range(m, x);
            lemma_filter_insert_skipped(m, insertion_point(m, x), x, keep);
        }
    }
}

/// Every entry of `s` comes before every later one in the canonical order.
pub open spec fn is_strictly_key_sorted(s: Seq<Seq<char>>) -> bool {
    forall|i: int, j: int| 0 <= i < j < s.len() ==> key_lt(#[trigger] s[i], #[trigger] s[j])
}

proof fn lemma_merge_sorted_into_empty(s: Seq<Seq<char>>)
    requires
        is_strictly_key_sorted(s),
    ensures
        merged_order(Seq::empty(), s) == s,
    decreases s.len(),
{
    if s.len() > 0 {
        let prefix = s.drop_last();
        let x = s.last();
        assert(is_strictly_key_sorted(prefix)) by {
            assert forall|i: int, j: int| 0 <= i < j < prefix.len() implies key_lt(#[trigger] prefix[i], #[trigger] prefix[j]) by {
                assert(prefix[i] == s[i] && prefix[j] == s[j]);
            }
        }
        lemma_merge_sorted_into_empty(prefix);
        assert forall|k: int| 0 <= k < prefix.len() implies key_lt(#[trigger] prefix[k], x) by {
            assert(prefix[k] == s[k]);
        }
        assert(!prefix.contains(x)) by {
            if prefix.contains(x) {
                let k = choose|k: int| 0 <= k < prefix.len() && prefix[k] == x;
                lemma_key_irreflexive(x);
            }
        }
        lemma_last_match_range(prefix, 0, x);
        lemma_last_match_range(prefix, 1, x);
        lemma_last_match_range(prefix, 2, x);
        let n = prefix.len() as int;
        let a = last_match(prefix, 0, x);
        if a >= 0 && a < n - 1 {
            let j = n - 1;
            assert(key_lt(prefix[a], prefix[j]));
            assert(key_lt(prefix[j], x));
            assert(!insertion_rule(0, prefix[j], x));
        }
        let b = last_match(prefix, 1, x);
        if a < 0 && b >= 0 {
            assert(key_lt(prefix[b], x));
            assert(insertion_rule(0, prefix[b], x));
        }
        if n > 0 {
            assert(insertion_rule(2, prefix[n - 1], x));
        }
        assert(insertion_point(prefix, x) == n);
        assert(prefix.insert(n, x) =~= s);
    }
}

/// Merging distinct devices into an empty saved order gives them in the canonical
/// order: the default layout of the sidebar.
pub proof fn lemma_merge_into_empty(present: Seq<Seq<char>>)
    requires
        present.no_duplicates(),
    ensures
        merge_result(Seq::empty(), present) == sorted_by_key(present),
{
    broadcast use vstd::seq_lib::group_to_multiset_ensures;

    let s = sorted_by_key(present);
    lemma_sorted_by_key_sorted(present);
    lemma_sorted_by_key_permutes(present);
    present.lemma_multiset_has_no_duplicates();
    s.lemma_multiset_has_no_duplicates_conv();
    assert forall|i: int, j: int| 0 <= i < j < s.len() implies key_lt(#[trigger] s[i], #[trigger] s[j]) by {
        assert(!key_lt(s[j], s[i]));
        assert(s[i] != s[j]);
        lemma_key_total(s[i], s[j]);
    }
    lemma_merge_sorted_into_empty(s);
}

/// How many entries a list of `len` entries has beyond `max` (0 when it has no more).
pub open spec fn excess_over(len: nat, max: nat) -> nat {
    if len > max {
        (len - max) as nat
    } else {
        0
    }
}

/// `order` with up to `excess` names that are not in `present` removed, the last such
/// names first.
pub open spec fn pruned(order: Seq<Seq<char>>, present: Seq<Seq<char>>, excess: nat) -> Seq<
    Seq<char>,
>
    decreases order.len(),
{
    if order.len() == 0 || excess == 0 {
        order
    } else if present.contains(order.last()) {
        pruned(order.drop_last(), present, excess).push(order.last())
    } else {
        pruned(order.drop_last(), present, (excess - 1) as nat)
    }
}

/// Keeps the saved sidebar order from growing past `max` names: names of devices that
/// are not `present` are dropped from the end until the order is short enough. Present
/// devices are never dropped, so the order can stay above `max`.
pub fn prune_sidebar_order(order: &mut Vec<String>, present: &Vec<String>, max: usize)
    ensures
        views(final(order)@) == pruned(
            views(old(order)@),
            views(present@),
            excess_over(old(order)@.len(), max as nat),
        ),
{
    let ghost start = views(order@);
    let ghost target = pruned(start, views(present@), excess_over(order@.len(), max as nat));
    let mut excess: usize = if order.len() > max {
        order.len() - max
    } else {
        0
    };
    let mut index: usize = order.len();
    assert(views(order@).take(index as int) =~= start);
    assert(views(order@).skip(index as int) =~= Seq::<Seq<char>>::empty());
    while excess > 0 && index > 0
        invariant
            index <= order@.len(),
            order@.len() <= start.len(),
            views(order@).take(index as int) == start.take(index as int),
            target == pruned(start.take(index as int), views(present@), excess as nat) + views(
                order@,
            ).skip(index as int),
        decreases index,
    {
        index -= 1;
        let ghost before = views(order@);
        let ghost prefix = start.take(index + 1);
        assert(prefix.drop_last() =~= start.take(index as int));
        assert(prefix.last() == before[index as int]);
        if !contains_name(present, &order[index]) {
            order.remove(index);
            excess -= 1;
            assert(views(order@) =~= before.remove(index as int));
            assert(views(order@).take(index as int) =~= before.take(index as int));
            assert(views(order@).skip(index as int) =~= before.skip(index + 1));
        } else {
            assert(before.skip(index as int) =~= seq![before[index as int]] + before.skip(index + 1));
            assert(before.take(index as int) =~= before.take(index + 1).drop_last());
        }
    }
    proof {
        let cur = views(order@);
        assert(cur.take(index as int) + cur.skip(index as int) =~= cur);
        if index == 0 {
            assert(start.take(0) =~= Seq::<Seq<char>>::empty());
        }
    }
}

/// How many names of `order` are not in `present`.
pub open spec fn absent_count(order: Seq<Seq<char>>, present: Seq<Seq<char>>) -> nat {
    order.filter(|y: Seq<char>| !present.contains(y)).len()
}

proof fn lemma_present_absent_split(order: Seq<Seq<char>>, present: Seq<Seq<char>>)
    ensures
        order.filter(|y: Seq<char>| present.contains(y)).len() + absent_count(order, present)
            == order.len(),
    decreases order.len(),
{
    reveal(Seq::filter);
    if order.len() > 0 {
        lemma_present_absent_split(order.drop_last(), present);
    }
}

/// Once no more than `max` of the saved names are present, pruning brings the order
/// down to at most `max` names, however often devices come and go.
pub proof fn lemma_pruned_within_cap(order: Seq<Seq<char>>, present: Seq<Seq<char>>, max: nat)
    requires
        order.filter(|y: Seq<char>| present.contains(y)).len() <= max,
    ensures
        pruned(order, present, excess_over(order.len(), max)).len() <= max,
{
    lemma_pruned_len(order, present, excess_over(order.len(), max));
    lemma_present_absent_split(order, present);
}

proof fn lemma_absent_count_push(s: Seq<Seq<char>>, x: Seq<char>, present: Seq<Seq<char>>)
    ensures
        absent_count(s.push(x), present) == absent_count(s, present) + if present.contains(x) {
            0int
        } else {
            1int
        },
{
    reveal(Seq::filter);
    assert(s.push(x).drop_last() =~= s);
}

proof fn lemma_absent_count_split(order: Seq<Seq<char>>, present: Seq<Seq<char>>)
    requires
        order.len() > 0,
    ensures
        absent_count(order, present) == absent_count(order.drop_last(), present) + if present.contains(
            order.last(),
        ) {
            0int
        } else {
            1int
        },
{
    assert(order.drop_last().push(order.last()) =~= order);
    lemma_absent_count_push(order.drop_last(), order.last(), present);
}

/// Pruning removes absent names only, as many as it may.
proof fn lemma_pruned_absent_count(order: Seq<Seq<char>>, present: Seq<Seq<char>>, excess: nat)
    ensures
        absent_count(pruned(order, present, excess), present) == absent_count(order, present) - (
        if excess < absent_count(order, present) {
            excess as int
        } else {
            absent_count(order, present) as int
        }),
    decreases order.len(),
{
    if order.len() == 0 {
        reveal(Seq::filter);
    } else if excess > 0 {
        let rest = order.drop_last();
        let x = order.last();
        lemma_absent_count_split(order, present);
        if present.contains(x) {
            lemma_pruned_absent_count(rest, present, excess);
            lemma_absent_count_push(pruned(rest, present, excess), x, present);
        } else {
            lemma_pruned_absent_count(rest, present, (excess - 1) as nat);
        }
    }
}

/// An order with no absent name is left alone by pruning.
proof fn lemma_pruned_nothing_absent(order: Seq<Seq<char>>, present: Seq<Seq<char>>, excess: nat)
    requires
        absent_count(order, present) == 0,
    ensures
        pruned(order, present, excess) == order,
    decreases order.len(),
{
    if order.len() > 0 && excess > 0 {
        lemma_absent_count_split(order, present);
        lemma_pruned_nothing_absent(order.drop_last(), present, excess);
        assert(order.drop_last().push(order.last()) =~= order);
    }
}

/// Pruning a second time with the same present devices and cap changes nothing: the
/// first prune either brought the order within the cap or left no absent name in it.
pub proof fn lemma_prune_twice(order: Seq<Seq<char>>, present: Seq<Seq<char>>, max: nat)
    ensures
        ({
            let once = pruned(order, present, excess_over(order.len(), max));
            pruned(once, present, excess_over(once.len(), max)) == once
        }),
{
    let excess = excess_over(order.len(), max);
    let once = pruned(order, present, excess);
    lemma_pruned_len(order, present, excess);
    lemma_pruned_absent_count(order, present, excess);
    if excess_over(once.len(), max) > 0 {
        lemma_pruned_nothing_absent(once, present, excess_over(once.len(), max));
    }
}

/// Pruning never drops a present device: the present names of the order are kept, in
/// their order.
pub proof fn lemma_pruned_keeps_present(
    order: Seq<Seq<char>>,
    present: Seq<Seq<char>>,
    excess: nat,
)
    ensures
        pruned(order, present, excess).filter(|y: Seq<char>| present.contains(y)) == order.filter(
            |y: Seq<char>| present.contains(y),
        ),
    decreases order.len(),
{
    let keep = |y: Seq<char>| present.contains(y);
    if order.len() > 0 && excess > 0 {
        let rest = order.drop_last();
        let x = order.last();
        assert(rest.push(x) =~= order);
        rest.lemma_filter_push(x, keep);
        if present.contains(x) {
            lemma_pruned_keeps_present(rest, present, excess);
            pruned(rest, present, excess).lemma_filter_push(x, keep);
        } else {
            lemma_pruned_keeps_present(rest, present, (excess - 1) as nat);
        }
    }
}

/// Pruning removes as many absent names as it may and as there are, no more.
pub proof fn lemma_pruned_len(order: Seq<Seq<char>>, present: Seq<Seq<char>>, excess: nat)
    ensures
        pruned(order, present, excess).len() == order.len() - (if excess < absent_count(
            order,
            present,
        ) {
            excess
        } else {
            absent_count(order, present)
        }),
    decreases order.len(),
{
    let gone = |y: Seq<char>| !present.contains(y);
    if order.len() == 0 {
        reveal(Seq::filter);
        assert(order.filter(gone) =~= Seq::<Seq<char>>::empty());
    } else if excess == 0 {
    } else {
        let rest = order.drop_last();
        let x = order.last();
        assert(rest.push(x) =~= order);
        rest.lemma_filter_push(x, gone);
        if present.contains(x) {
            lemma_pruned_len(rest, present, excess);
        } else {
            lemma_pruned_len(rest, present, (excess - 1) as nat);
        }
    }
}

/// Pruning only removes names.
pub proof fn lemma_pruned_subset(order: Seq<Seq<char>>, present: Seq<Seq<char>>, excess: nat)
    ensures
        forall|y: Seq<char>| #[trigger] pruned(order, present, excess).contains(y) ==> order.contains(y),
    decreases order.len(),
{
    if order.len() > 0 && excess > 0 {
        let rest = order.drop_last();
        let x = order.last();
        let next = if present.contains(x) {
            excess
        } else {
            (excess - 1) as nat
        };
        lemma_pruned_subset(rest, present, next);
        assert forall|y: Seq<char>| #[trigger] pruned(order, present, excess).contains(y) implies order.contains(y) by {
            let r = pruned(order, present, excess);
            let k = choose|k: int| 0 <= k < r.len() && r[k] == y;
            if k < pruned(rest, present, next).len() {
                assert(pruned(rest, present, next)[k] == y);
                assert(pruned(rest, present, next).contains(y));
                let m = choose|m: int| 0 <= m < rest.len() && rest[m] == y;
                assert(order[m] == y);
            } else {
                assert(order[order.len() - 1] == y);
            }
        }
    }
}

/// The index of the first `x` in `s`, or -1.
pub open spec fn first_index(s: Seq<Seq<char>>, x: Seq<char>) -> int
    decreases s.len(),
{
    if s.len() == 0 {
        -1
    } else if s[0] == x {
        0
    } else if first_index(s.drop_first(), x) < 0 {
        -1
    } else {
        first_index(s.drop_first(), x) + 1
    }
}

proof fn lemma_first_index(s: Seq<Seq<char>>, x: Seq<char>)
    ensures
        -1 <= first_index(s, x) < s.len(),
        first_index(s, x) >= 0 ==> s[first_index(s, x)] == x,
        forall|k: int| 0 <= k < s.len() && (first_index(s, x) < 0 || k < first_index(s, x)) ==> #[trigger] s[k] != x,
    decreases s.len(),
{
    if s.len() > 0 && s[0] != x {
        lemma_first_index(s.drop_first(), x);
        assert forall|k: int| 0 <= k < s.len() && (first_index(s, x) < 0 || k < first_index(s, x)) implies #[trigger] s[k] != x by {
            if k > 0 {
                assert(s[k] == s.drop_first()[k - 1]);
            }
        }
    }
}

/// Whether a name is not `dragged`.
pub open spec fn other_than(dragged: Seq<char>) -> spec_fn(Seq<char>) -> bool {
    |name: Seq<char>| name != dragged
}

/// The saved order after `dragged` was dropped next to `target`: `dragged` is taken
/// out and put back just before `target`, or just after it when `after_target`.
/// `None` when nothing is to be saved: `dragged` is `target`, or `target` is not in the
/// order.
pub open spec fn moved_order(
    order: Seq<Seq<char>>,
    dragged: Seq<char>,
    target: Seq<char>,
    after_target: bool,
) -> Option<Seq<Seq<char>>> {
    if dragged == target {
        None
    } else {
        let rest = order.filter(other_than(dragged));
        let at = first_index(rest, target);
        if at < 0 {
            None
        } else {
            Some(rest.insert(if after_target { at + 1 } else { at }, dragged))
        }
    }
}

/// Whether two strings hold the same characters.
pub fn str_eq(a: &str, b: &str) -> (same: bool)
    ensures
        same == (a@ == b@),
{
    let ac = chars_of(a);
    let bc = chars_of(b);
    same_chars(&ac, &bc)
}

/// The saved sidebar order after the row `dragged` was dropped before (or, when
/// `after_target`, after) the row `target`; see `moved_order`.
pub fn move_in_saved_order(
    order: &Vec<String>,
    dragged: &str,
    target: &str,
    after_target: bool,
) -> (moved: Option<Vec<String>>)
    ensures
        moved is Some <==> moved_order(views(order@), dragged@, target@, after_target) is Some,
        moved is Some ==> views(moved->0@) == moved_order(
            views(order@),
            dragged@,
            target@,
            after_target,
        )->0,
{
    if str_eq(dragged, target) {
        return None;
    }
    let ghost keep = other_than(dragged@);
    let mut rest: Vec<String> = Vec::new();
    let mut i: usize = 0;
    assert(views(order@).take(0).filter(keep) =~= Seq::<Seq<char>>::empty()) by {
        reveal(Seq::filter);
    }
    while i < order.len()
        invariant
            i <= order@.len(),
            keep == other_than(dragged@),
            views(rest@) == views(order@).take(i as int).filter(keep),
        decreases order.len() - i,
    {
        let ghost before = rest@;
        let keep_it = !str_eq(order[i].as_str(), dragged);
        if keep_it {
            rest.push(order[i].clone());
        }
        proof {
            let t = views(order@).take(i + 1);
            assert(t =~= views(order@).take(i as int).push(views(order@)[i as int]));
            views(order@).take(i as int).lemma_filter_push(views(order@)[i as int], keep);
            if keep_it {
                assert(views(rest@) =~= views(before).push(order@[i as int]@));
            } else {
                assert(views(rest@) =~= views(before));
            }
        }
        i += 1;
    }
    assert(views(order@).take(order@.len() as int) =~= views(order@));
    let mut at: usize = 0;
    while at < rest.len() && !str_eq(rest[at].as_str(), target)
        invariant
            at <= rest@.len(),
            forall|k: int| 0 <= k < at ==> #[trigger] views(rest@)[k] != target@,
        decreases rest.len() - at,
    {
        at += 1;
    }
    proof {
        lemma_first_index(views(rest@), target@);
        let f = first_index(views(rest@), target@);
        if at < rest@.len() {
            assert(views(rest@)[at as int] == target@);
            if f < 0 || f > at {
            }
            if f >= 0 && f < at {
                assert(views(rest@)[f] != target@);
            }
        } else if f >= 0 {
            assert(views(rest@)[f] != target@);
        }
    }
    if at == rest.len() {
        return None;
    }
    let place = if after_target {
        at + 1
    } else {
        at
    };
    let ghost before = rest@;
    rest.insert(place, dragged.to_owned());
    assert(views(rest@) =~= views(before).insert(place as int, dragged@));
    Some(rest)
}

/// The order in which the rows around `index` are tried: `index`, `index - 1`,
/// `index + 1`, `index - 2`, and so on.
pub open spec fn search_rank(j: int, index: int) -> int {
    if j >= index {
        2 * (j - index)
    } else {
        2 * (index - 1 - j) + 1
    }
}

/// Whether row `j` is shown and no other shown row is tried before it when searching
/// around `index`.
pub open spec fn is_nearest_shown(shown: Seq<bool>, index: int, j: int) -> bool {
    &&& 0 <= j < shown.len()
    &&& shown[j]
    &&& forall|k: int| 0 <= k < shown.len() && #[trigger] shown[k] ==> search_rank(j, index) <= search_rank(k, index)
}

/// The shown row closest to `index`, searching forward then backward in turn; none
/// when no row is shown or `index` lies beyond the row after the last.
pub open spec fn nearest_shown(shown: Seq<bool>, index: int) -> Option<int> {
    if index <= shown.len() && exists|j: int| is_nearest_shown(shown, index, j) {
        Some(choose|j: int| is_nearest_shown(shown, index, j))
    } else {
        None
    }
}

proof fn lemma_nearest_unique(shown: Seq<bool>, index: int, j: int)
    requires
        is_nearest_shown(shown, index, j),
        index <= shown.len(),
    ensures
        nearest_shown(shown, index) == Some(j),
{
    let c = choose|c: int| is_nearest_shown(shown, index, c);
    assert(is_nearest_shown(shown, index, c));
    assert(search_rank(j, index) <= search_rank(c, index));
    assert(search_rank(c, index) <= search_rank(j, index));
}

/// The row to select around `index` among the sidebar rows whose visibility is
/// `shown`; see `nearest_shown`.
pub fn nearest_shown_row(shown: &Vec<bool>, index: usize) -> (row: Option<usize>)
    ensures
        row is Some <==> nearest_shown(shown@, index as int) is Some,
        row is Some ==> nearest_shown(shown@, index as int) == Some(row->0 as int),
{
    let n = shown.len();
    if index > n {
        return None;
    }
    let mut step: usize = 0;
    loop
        invariant
            n == shown@.len(),
            index <= n,
            step <= n,
            forall|k: int| 0 <= k < n && #[trigger] shown@[k] ==> search_rank(k, index as int) >= 2 * step,
        decreases n - step,
    {
        let forward_ok = step < n - index;
        let backward_ok = step < index;
        if !forward_ok && !backward_ok {
            assert forall|j: int| !is_nearest_shown(shown@, index as int, j) by {
                if is_nearest_shown(shown@, index as int, j) {
                    assert(shown@[j]);
                }
            }
            return None;
        }
        if forward_ok && shown[index + step] {
            let j = index + step;
            proof {
                assert(is_nearest_shown(shown@, index as int, j as int));
                lemma_nearest_unique(shown@, index as int, j as int);
            }
            return Some(j);
        }
        if backward_ok && shown[index - 1 - step] {
            let j = index - 1 - step;
            proof {
                assert forall|k: int| 0 <= k < n && #[trigger] shown@[k] implies search_rank(j as int, index as int) <= search_rank(k, index as int) by {
                    if k == index + step {
                    }
                }
                assert(is_nearest_shown(shown@, index as int, j as int));
                lemma_nearest_unique(shown@, index as int, j as int);
            }
            return Some(j);
        }
        assert forall|k: int| 0 <= k < n && #[trigger] shown@[k] implies search_rank(k, index as int) >= 2 * (step + 1) by {
            if k == index + step {
            }
            if k == index - 1 - step {
            }
        }
        step += 1;
    }
}

/// The row to select for page `page_name`: its own row when it is shown, else the
/// shown row nearest to it; the shown row nearest the top when no row is that page.
pub open spec fn page_row(names: Seq<Seq<char>>, shown: Seq<bool>, page_name: Seq<char>) -> Option<
    int,
> {
    let at = first_index(names, page_name);
    if at >= 0 {
        if shown[at] {
            Some(at)
        } else {
            nearest_shown(shown, at)
        }
    } else {
        nearest_shown(shown, 0)
    }
}

/// The sidebar row to select for page `page_name`; `names` are the page names of the
/// rows and `shown` whether each row is shown. See `page_row`.
pub fn select_page_row(names: &Vec<String>, shown: &Vec<bool>, page_name: &str) -> (row: Option<
    usize,
>)
    requires
        names@.len() == shown@.len(),
    ensures
        row is Some <==> page_row(views(names@), shown@, page_name@) is Some,
        row is Some ==> page_row(views(names@), shown@, page_name@) == Some(row->0 as int),
{
    let mut index: usize = 0;
    while index < names.len()
        invariant
            index <= names@.len(),
            names@.len() == shown@.len(),
            forall|k: int| 0 <= k < index ==> #[trigger] views(names@)[k] != page_name@,
        decreases names.len() - index,
    {
        if str_eq(names[index].as_str(), page_name) {
            proof {
                lemma_first_index(views(names@), page_name@);
                let f = first_index(views(names@), page_name@);
                assert(views(names@)[index as int] == page_name@);
                if f >= 0 && f < index {
                    assert(views(names@)[f] != page_name@);
                }
            }
            if shown[index] {
                return Some(index);
            }
            return nearest_shown_row(shown, index);
        }
        index += 1;
    }
    proof {
        lemma_first_index(views(names@), page_name@);
        let f = first_index(views(names@), page_name@);
        if f >= 0 {
            assert(views(names@)[f] != page_name@);
        }
    }
    nearest_shown_row(shown, 0)
}

/// Whether row `i` belongs to the view action `action` and is shown.
pub open spec fn row_in_category(names: Seq<Seq<char>>, shown: Seq<bool>, action: Seq<char>, i: int) -> bool {
    view_action(names[i]) == Some(action) && shown[i]
}

/// The first shown row, in sidebar order, whose page belongs to the view action
/// `action_name`.
pub fn first_shown_in_category(names: &Vec<String>, shown: &Vec<bool>, action_name: &str) -> (row:
    Option<usize>)
    requires
        names@.len() == shown@.len(),
    ensures
        row is Some ==> row->0 < names@.len() && row_in_category(
            views(names@),
            shown@,
            action_name@,
            row->0 as int,
        ),
        row is Some ==> forall|k: int|
            0 <= k < row->0 ==> !row_in_category(views(names@), shown@, action_name@, k),
        row is None ==> forall|k: int|
            0 <= k < names@.len() ==> !row_in_category(views(names@), shown@, action_name@, k),
{
    let mut index: usize = 0;
    while index < names.len()
        invariant
            index <= names@.len(),
            names@.len() == shown@.len(),
            forall|k: int| 0 <= k < index ==> !row_in_category(views(names@), shown@, action_name@, k),
        decreases names.len() - index,
    {
        let action = view_action_name(names[index].as_str());
        let matches = match action {
            Some(a) => str_eq(a, action_name) && shown[index],
            None => false,
        };
        if matches {
            return Some(index);
        }
        index += 1;
    }
    None
}

/// How many entries of `shown` are true.
pub open spec fn shown_count(shown: Seq<bool>) -> nat
    decreases shown.len(),
{
    if shown.len() == 0 {
        0
    } else {
        shown_count(shown.drop_last()) + if shown.last() {
            1nat
        } else {
            0nat
        }
    }
}

/// The `nth` shown row, counting from 0; none when `nth` is negative or fewer rows
/// are shown.
pub fn nth_shown_row(shown: &Vec<bool>, nth: i32) -> (row: Option<usize>)
    ensures
        row is Some ==> row->0 < shown@.len() && shown@[row->0 as int] && shown_count(
            shown@.take(row->0 as int),
        ) == nth,
        row is None ==> nth < 0 || shown_count(shown@) <= nth,
{
    if nth < 0 {
        return None;
    }
    let mut count: i64 = 0;
    let mut index: usize = 0;
    assert(shown@.take(0) =~= Seq::<bool>::empty());
    while index < shown.len()
        invariant
            index <= shown@.len(),
            count == shown_count(shown@.take(index as int)),
            0 <= count <= nth,
        decreases shown.len() - index,
    {
        assert(shown@.take(index + 1).drop_last() =~= shown@.take(index as int));
        if shown[index] {
            if count == nth as i64 {
                return Some(index);
            }
            count += 1;
        }
        index += 1;
    }
    assert(shown@.take(shown@.len() as int) =~= shown@);
    None
}

/// After a drop, the dragged row sits right next to its target, on the side it was
/// dropped, and appears nowhere else; every other row keeps its relative order.
#[verifier::spinoff_prover]
#[verifier::rlimit(40)]
pub proof fn lemma_moved_order_places_dragged(
    order: Seq<Seq<char>>,
    dragged: Seq<char>,
    target: Seq<char>,
    after_target: bool,
)
    requires
        moved_order(order, dragged, target, after_target) is Some,
    ensures
        ({
            let moved = moved_order(order, dragged, target, after_target)->0;
            &&& moved.filter(other_than(dragged)) == order.filter(other_than(dragged))
            &&& after_target ==> exists|i: int|
                0 <= i && i + 1 < moved.len() && #[trigger] moved[i] == target && moved[i + 1]
                    == dragged
            &&& !after_target ==> exists|i: int|
                0 <= i && i + 1 < moved.len() && #[trigger] moved[i] == dragged && moved[i + 1]
                    == target
            &&& forall|j: int, k: int|
                0 <= j < moved.len() && 0 <= k < moved.len() && #[trigger] moved[j] == dragged
                    && #[trigger] moved[k] == dragged ==> j == k
        }),
{
    let keep = other_than(dragged);
    let rest = order.filter(keep);
    let at = first_index(rest, target);
    lemma_first_index(rest, target);
    let pos = if after_target {
        at + 1
    } else {
        at
    };
    let moved = rest.insert(pos, dragged);
    assert(moved_order(order, dragged, target, after_target) == Some(moved));
    assert forall|k: int| 0 <= k < rest.len() implies #[trigger] rest[k] != dragged by {
        order.lemma_filter_pred(keep, k);
        assert(keep(rest[k]));
    }
    assert(rest.filter(keep) == rest) by {
        assert forall|k: int| 0 <= k < rest.len() implies keep(#[trigger] rest[k]) by {
        }
        lemma_filter_all(rest, keep);
    }
    lemma_filter_insert_skipped(rest, pos, dragged, keep);
    rest.insert_ensures(pos, dragged);
    if after_target {
        assert(moved[at] == target && moved[at + 1] == dragged);
    } else {
        assert(moved[at] == dragged && moved[at + 1] == target);
    }
    assert forall|j: int, k: int|
        0 <= j < moved.len() && 0 <= k < moved.len() && #[trigger] moved[j] == dragged
            && #[trigger] moved[k] == dragged implies j == k by {
        if j < pos {
            assert(moved[j] == rest[j]);
        } else if j > pos {
            assert(moved[j] == rest[j - 1]);
        }
        if k < pos {
            assert(moved[k] == rest[k]);
        } else if k > pos {
            assert(moved[k] == rest[k - 1]);
        }
    }
}

/// The key the sidebar sorts its rows by: rows in the saved order first, by their
/// place in it; then the others, by category and name.
pub open spec fn row_sort_key_spec(rank: Option<usize>, name: Seq<char>) -> (u8, usize, u8, Seq<char>) {
    match rank {
        Some(index) => (0u8, index, 0u8, Seq::empty()),
        None => (1u8, 0usize, category(name) as u8, name),
    }
}

/// The key the sidebar sorts row `name` by; `rank` is its place in the saved order.
pub fn row_sort_key(rank: Option<usize>, name: &str) -> (key: (u8, usize, u8, String))
    ensures
        (key.0, key.1, key.2, key.3@) == row_sort_key_spec(rank, name@),
{
    match rank {
        Some(index) => (0, index, 0, String::new()),
        None => {
            let chars = chars_of(name);
            proof {
                lemma_category_range(name@, 0);
            }
            (1, 0, category_of_chars(&chars), String::from_str(name))
        },
    }
}

/// The separator between entries of the saved sidebar order.
pub open spec fn order_separator() -> char {
    ';'
}

/// The entries of a saved sidebar order: the non-empty pieces of `stored` between
/// semicolons, in order. Each entry is still in its encoded form.
pub fn saved_order_entries(stored: &str) -> (entries: Vec<String>)
    ensures
        views(entries@) == split_entries(stored@, order_separator()),
{
    split_nonempty(stored, ';')
}

/// The text a sidebar order is saved as, given its entries already encoded; none when
/// `current` already holds exactly that text, so that nothing needs to be written.
pub fn saved_order_text(encoded: &Vec<String>, current: &str) -> (text: Option<String>)
    ensures
        text is None <==> current@ == join_with(views(encoded@), seq![order_separator()]),
        text is Some ==> text->0@ == join_with(views(encoded@), seq![order_separator()]),
{
    let text = join_strings(encoded, ";");
    proof {
        reveal_strlit(";");
        assert(";"@ =~= seq![order_separator()]);
    }
    let c = chars_of(current);
    let t = chars_of(text.as_str());
    if same_chars(&c, &t) {
        None
    } else {
        Some(text)
    }
}

/// Reading back a saved order gives the entries that were saved, as long as each is
/// non-empty and holds no semicolon (which the encoding of page names ensures).
pub proof fn lemma_saved_order_round_trip(encoded: Seq<Seq<char>>)
    requires
        forall|k: int| 0 <= k < encoded.len() ==> is_nonempty(#[trigger] encoded[k]),
        forall|k: int| 0 <= k < encoded.len() ==> !(#[trigger] encoded[k]).contains(
            order_separator(),
        ),
    ensures
        split_entries(join_with(encoded, seq![order_separator()]), order_separator()) == encoded,
{
    lemma_split_join(encoded, order_separator());
}

/// The saved sidebar order as the page rebuilds it: the devices `present` merged in,
/// then pruned to `MAX_REMEMBERED_DEVICES` names where devices are gone.
pub open spec fn refreshed_order(order: Seq<Seq<char>>, present: Seq<Seq<char>>) -> Seq<
    Seq<char>,
> {
    let merged = merge_result(order, present);
    pruned(merged, present, excess_over(merged.len(), MAX_REMEMBERED_DEVICES as nat))
}

/// Brings the saved sidebar order up to date with the devices `present`: new devices
/// are merged in next to their siblings and devices that are gone are pruned.
pub fn refresh_sidebar_order(order: &mut Vec<String>, present: Vec<String>)
    requires
        old(order)@.len() + present@.len() < i64::MAX,
    ensures
        views(final(order)@) == refreshed_order(views(old(order)@), views(present@)),
{
    let kept = copy_names(&present);
    merge_new_devices(order, present);
    prune_sidebar_order(order, &kept, MAX_REMEMBERED_DEVICES);
}

fn copy_names(names: &Vec<String>) -> (out: Vec<String>)
    ensures
        views(out@) == views(names@),
{
    let mut out: Vec<String> = Vec::new();
    let mut i: usize = 0;
    while i < names.len()
        invariant
            i <= names@.len(),
            views(out@) == views(names@).take(i as int),
        decreases names.len() - i,
    {
        let ghost before = views(out@);
        out.push(String::from_str(names[i].as_str()));
        assert(views(out@) =~= before.push(names@[i as int]@));
        i += 1;
        assert(views(out@) =~= views(names@).take(i as int));
    }
    assert(views(names@).take(names@.len() as int) =~= views(names@));
    out
}

/// After the order is refreshed, every present device has a place in it, and every
/// name in it was either saved before or is present.
pub proof fn lemma_refreshed_order_ranks_present(order: Seq<Seq<char>>, present: Seq<Seq<char>>)
    ensures
        forall|y: Seq<char>| present.contains(y) ==> #[trigger] refreshed_order(order, present).contains(y),
        forall|y: Seq<char>| #[trigger] refreshed_order(order, present).contains(y) ==> order.contains(y) || present.contains(y),
{
    broadcast use vstd::seq_lib::group_filter_ensures;

    let merged = merge_result(order, present);
    let excess = excess_over(merged.len(), MAX_REMEMBERED_DEVICES as nat);
    let keep = |y: Seq<char>| present.contains(y);
    lemma_merge_result_contains(order, present);
    lemma_pruned_keeps_present(merged, present, excess);
    lemma_pruned_subset(merged, present, excess);
    let result = pruned(merged, present, excess);
    assert forall|y: Seq<char>| present.contains(y) implies #[trigger] result.contains(y) by {
        assert(merged.contains(y));
        let i = choose|i: int| 0 <= i < merged.len() && merged[i] == y;
        merged.lemma_filter_contains(keep, i);
        assert(result.filter(keep).contains(y));
        result.lemma_filter_contains_rev(keep, y);
    }
}

/// The last of the first `n` rows that is eligible, or -1 when none is.
pub open spec fn last_eligible(eligible: Seq<bool>, n: nat) -> int
    decreases n,
{
    if n == 0 {
        -1
    } else if eligible[n - 1] {
        n - 1
    } else {
        last_eligible(eligible, (n - 1) as nat)
    }
}

/// Where a dragged row would be dropped, as the row that shows the hint and whether
/// the hint is at its bottom. `hit` is the row under the pointer when that row holds
/// a device graph; it gets the hint at its top. Off every graph row and not near the
/// top of the list, the hint goes to the bottom of the last row, among the first
/// `graph_count`, that is visible and shown (`eligible`), provided that row holds a
/// graph (`is_graph`); otherwise nothing is hinted.
pub open spec fn drop_hint(
    hit: Option<usize>,
    near_top: bool,
    graph_count: nat,
    eligible: Seq<bool>,
    is_graph: Seq<bool>,
) -> Option<(usize, bool)> {
    match hit {
        Some(row) => Some((row, false)),
        None => {
            let n = if graph_count < eligible.len() {
                graph_count
            } else {
                eligible.len()
            };
            let j = last_eligible(eligible, n);
            if near_top || j < 0 || !is_graph[j] {
                None
            } else {
                Some((j as usize, true))
            }
        },
    }
}

/// Where a dragged row would be dropped; see `drop_hint`.
pub fn drop_hint_row(
    hit: Option<usize>,
    near_top: bool,
    graph_count: usize,
    eligible: &Vec<bool>,
    is_graph: &Vec<bool>,
) -> (hint: Option<(usize, bool)>)
    requires
        eligible@.len() == is_graph@.len(),
    ensures
        hint == drop_hint(hit, near_top, graph_count as nat, eligible@, is_graph@),
{
    if let Some(row) = hit {
        return Some((row, false));
    }
    if near_top {
        return None;
    }
    let n = if graph_count < eligible.len() {
        graph_count
    } else {
        eligible.len()
    };
    let mut i: usize = n;
    while i > 0
        invariant
            i <= n,
            n <= eligible@.len(),
            eligible@.len() == is_graph@.len(),
            hit is None,
            !near_top,
            n == (if graph_count < eligible@.len() {
                graph_count as nat
            } else {
                eligible@.len()
            }),
            last_eligible(eligible@, n as nat) == last_eligible(eligible@, i as nat),
        decreases i,
    {
        i -= 1;
        if eligible[i] {
            if is_graph[i] {
                return Some((i, true));
            }
            return None;
        }
    }
    None
}

/// A user's choice for one device's row: shown or hidden whatever its category's
/// setting says.
#[derive(Clone, Copy, Debug, PartialEq, Eq, Structural)]
pub enum DeviceOverride {
    Show,
    Hide,
}

/// The overrides as page names with their choices.
pub open spec fn overrides_view(v: Seq<(String, DeviceOverride)>) -> Seq<(Seq<char>, DeviceOverride)> {
    v.map_values(|e: (String, DeviceOverride)| (e.0@, e.1))
}

/// Whether the overrides hold a choice for `name`.
pub open spec fn has_override(v: Seq<(Seq<char>, DeviceOverride)>, name: Seq<char>) -> bool {
    exists|k: int| 0 <= k < v.len() && (#[trigger] v[k]).0 == name
}

/// The overrides with `names` hidden, each unless a choice for it is already there
/// (the first name of a repeated one counts).
pub open spec fn hidden_added(v: Seq<(Seq<char>, DeviceOverride)>, names: Seq<Seq<char>>) -> Seq<
    (Seq<char>, DeviceOverride),
>
    decreases names.len(),
{
    if names.len() == 0 {
        v
    } else {
        let before = hidden_added(v, names.drop_last());
        if has_override(before, names.last()) {
            before
        } else {
            before.push((names.last(), DeviceOverride::Hide))
        }
    }
}

/// Carries the old list of hidden graphs, page names separated by semicolons, over
/// into the overrides: every listed page without a choice yet is hidden.
pub fn migrate_hidden_graphs(overrides: &mut Vec<(String, DeviceOverride)>, old_hidden: &str)
    ensures
        overrides_view(final(overrides)@) == hidden_added(
            overrides_view(old(overrides)@),
            split_entries(old_hidden@, order_separator()),
        ),
{
    let names = split_nonempty(old_hidden, ';');
    let ghost start = overrides_view(overrides@);
    let mut i: usize = 0;
    assert(views(names@).take(0) =~= Seq::<Seq<char>>::empty());
    while i < names.len()
        invariant
            i <= names@.len(),
            overrides_view(overrides@) == hidden_added(start, views(names@).take(i as int)),
        decreases names.len() - i,
    {
        let ghost before = overrides_view(overrides@);
        assert(views(names@).take(i + 1).drop_last() =~= views(names@).take(i as int));
        assert(views(names@).take(i + 1).last() == names@[i as int]@);
        let mut found = false;
        let mut k: usize = 0;
        while k < overrides.len()
            invariant
                k <= overrides@.len(),
                i < names@.len(),
                before == overrides_view(overrides@),
                found <==> exists|j: int| 0 <= j < k && (#[trigger] before[j]).0 == names@[i as int]@,
            decreases overrides.len() - k,
        {
            if str_eq(overrides[k].0.as_str(), names[i].as_str()) {
                found = true;
            }
            assert(before[k as int].0 == overrides@[k as int].0@);
            k += 1;
        }
        assert(found == has_override(before, names@[i as int]@));
        if !found {
            overrides.push((String::from_str(names[i].as_str()), DeviceOverride::Hide));
            assert(overrides_view(overrides@) =~= before.push((names@[i as int]@, DeviceOverride::Hide)));
        }
        i += 1;
    }
    assert(views(names@).take(names@.len() as int) =~= views(names@));
}

/// Whether `row` is what a search for a shown row around `index` finds: some row
/// exactly when any row is shown, and then a shown row tried no later than any other
/// shown row (see `search_rank`).
pub open spec fn closest_shown(row: Option<int>, shown: Seq<bool>, index: int) -> bool {
    &&& row is Some <==> exists|k: int| 0 <= k < shown.len() && shown[k]
    &&& row is Some ==> {
        let j = row->0;
        &&& 0 <= j < shown.len()
        &&& shown[j]
        &&& forall|k: int| 0 <= k < shown.len() && #[trigger] shown[k] ==> search_rank(j, index) <= search_rank(k, index)
    }
}

proof fn lemma_nearest_exists(shown: Seq<bool>, index: int, bound: nat)
    requires
        0 <= index <= shown.len(),
        exists|k: int| 0 <= k < shown.len() && shown[k] && search_rank(k, index) <= bound,
    ensures
        exists|j: int| is_nearest_shown(shown, index, j),
    decreases bound,
{
    if bound > 0 && exists|k: int| 0 <= k < shown.len() && shown[k] && search_rank(k, index) <= bound - 1 {
        lemma_nearest_exists(shown, index, (bound - 1) as nat);
    } else {
        let k = choose|k: int| 0 <= k < shown.len() && shown[k] && search_rank(k, index) <= bound;
        assert forall|m: int| 0 <= m < shown.len() && #[trigger] shown[m] implies search_rank(k, index)
            <= search_rank(m, index) by {
            if bound > 0 {
                assert(!(search_rank(m, index) <= bound - 1));
            }
        }
        assert(is_nearest_shown(shown, index, k));
    }
}

/// The search for a shown row around `index` (what `nearest_shown_row` returns) finds
/// a row whenever one is shown, and then one tried no later than any other shown row;
/// it finds none from an index beyond the row after the last.
pub proof fn lemma_nearest_shown_closest(shown: Seq<bool>, index: int)
    requires
        0 <= index,
    ensures
        index <= shown.len() ==> closest_shown(nearest_shown(shown, index), shown, index),
        index > shown.len() ==> nearest_shown(shown, index) is None,
{
    if index <= shown.len() && exists|k: int| 0 <= k < shown.len() && shown[k] {
        let k = choose|k: int| 0 <= k < shown.len() && shown[k];
        lemma_nearest_exists(shown, index, search_rank(k, index) as nat);
        let j = choose|j: int| is_nearest_shown(shown, index, j);
        assert(is_nearest_shown(shown, index, j));
    }
}

/// The row selected for a page: the page's own row when it is shown; when it is
/// hidden, the shown row found by searching around the page's own row (forward, then
/// backward, in turn); when no row is the page, the shown row found searching from
/// the top. Nothing is selected only when no row is shown.
pub proof fn lemma_page_row_selects(names: Seq<Seq<char>>, shown: Seq<bool>, page_name: Seq<char>)
    requires
        names.len() == shown.len(),
    ensures
        forall|at: int|
            0 <= at < names.len() && #[trigger] names[at] == page_name && (forall|k: int|
                0 <= k < at ==> names[k] != page_name) ==> {
                &&& shown[at] ==> page_row(names, shown, page_name) == Some(at)
                &&& !shown[at] ==> closest_shown(page_row(names, shown, page_name), shown, at)
            },
        (forall|k: int| 0 <= k < names.len() ==> names[k] != page_name) ==> closest_shown(
            page_row(names, shown, page_name),
            shown,
            0,
        ),
{
    lemma_first_index(names, page_name);
    let fi = first_index(names, page_name);
    assert forall|at: int|
        0 <= at < names.len() && #[trigger] names[at] == page_name && (forall|k: int|
            0 <= k < at ==> names[k] != page_name) implies {
            &&& shown[at] ==> page_row(names, shown, page_name) == Some(at)
            &&& !shown[at] ==> closest_shown(page_row(names, shown, page_name), shown, at)
        } by {
        if fi < 0 || at < fi {
            assert(names[at] != page_name);
        }
        if fi < at {
            assert(names[fi] != page_name);
        }
        assert(fi == at);
        lemma_nearest_shown_closest(shown, at);
    }
    if forall|k: int| 0 <= k < names.len() ==> names[k] != page_name {
        if fi >= 0 {
            assert(names[fi] != page_name);
        }
        lemma_nearest_shown_closest(shown, 0);
    }
}

} // verus!
