//! Baseline comparison results.
//!
//! A comparison of a previously emitted CryptoBOM (the baseline) with a freshly
//! computed one reports which cryptographic components were added, removed, or
//! had their priority/occurrence counts change, which lets teams track
//! migration progress over time (e.g. "RSA occurrences dropped from 40 to 12").
//! This module holds the result of such a comparison ([`Diff`]), renders it as
//! text and as JSON, and reads the component snapshots that a comparison works
//! on, from a baseline JSON document or from an in-memory BOM. Computing the
//! comparison itself is not part of this library.
//!
//! A set of snapshots keyed by id is held as a vector sorted by id,
//! with each id once: the order and uniqueness of a `BTreeMap<String, _>`.

use vstd::prelude::*;

use crate::cbom::{Component, CryptoBom};
use crate::json::{
    int_of, is_text, keys_ascending, lemma_lookup_sorted, lookup, text_of, Json, JsonObject,
};
use crate::text::{
    int_text, lemma_text_lt_irreflexive, lemma_text_lt_total, lemma_text_lt_transitive,
    nat_text, push_int, push_nat, push_signed, signed_text, text_equal, text_less, text_lt,
};

verus! {

/// A single component's state used for comparison.
#[derive(Debug, Clone, PartialEq)]
pub struct ComponentSnapshot {
    pub id: String,
    pub name: String,
    pub priority: i64,
    pub occurrence_count: i64,
    pub file_count: i64,
}

/// What a [`ComponentSnapshot`] holds, with its texts as character sequences.
pub struct SnapshotView {
    pub id: Seq<char>,
    pub name: Seq<char>,
    pub priority: i64,
    pub occurrence_count: i64,
    pub file_count: i64,
}

impl View for ComponentSnapshot {
    type V = SnapshotView;

    open spec fn view(&self) -> SnapshotView {
        SnapshotView {
            id: self.id@,
            name: self.name@,
            priority: self.priority,
            occurrence_count: self.occurrence_count,
            file_count: self.file_count,
        }
    }
}

/// The result of comparing a baseline to a current BOM.
#[derive(Debug, Clone, Default)]
pub struct Diff {
    pub added: Vec<ComponentSnapshot>,
    pub removed: Vec<ComponentSnapshot>,
    pub changed: Vec<ChangedComponent>,
    pub unchanged: Vec<String>,
}

/// A component present in both, with differing metrics.
#[derive(Debug, Clone, PartialEq)]
pub struct ChangedComponent {
    pub id: String,
    pub name: String,
    pub baseline: ComponentSnapshot,
    pub current: ComponentSnapshot,
}

impl ChangedComponent {
    /// The occurrence count grew from the baseline to the current BOM.
    pub open spec fn increased(self) -> bool {
        self.current.occurrence_count > self.baseline.occurrence_count
    }

    /// The change in occurrence count, from the baseline to the current BOM.
    pub open spec fn delta(self) -> int {
        self.current.occurrence_count - self.baseline.occurrence_count
    }
}

impl Diff {
    /// Nothing was added, removed or changed.
    pub open spec fn no_changes(self) -> bool {
        &&& self.added@.len() == 0
        &&& self.removed@.len() == 0
        &&& self.changed@.len() == 0
    }

    /// Something new was added, or some occurrence count grew.
    pub open spec fn regressed(self) -> bool {
        ||| self.added@.len() > 0
        ||| exists|i: int| 0 <= i < self.changed@.len() && (#[trigger] self.changed@[i]).increased()
    }

    /// Every occurrence delta fits in an `i64`.
    pub open spec fn deltas_fit(self) -> bool {
        forall|i: int|
            0 <= i < self.changed@.len() ==> i64::MIN <= (#[trigger] self.changed@[i]).delta()
                <= i64::MAX
    }

    /// Whether anything changed at all.
    pub fn is_empty(&self) -> (r: bool)
        ensures
            r == self.no_changes(),
            r == (self.added@.len() == 0 && self.removed@.len() == 0 && self.changed@.len() == 0),
    {
        self.added.len() == 0 && self.removed.len() == 0 && self.changed.len() == 0
    }

    /// True when the current BOM has new or increased crypto exposure: something
    /// was added, or some occurrence count increased. When neither holds, the
    /// current BOM is "better or equal" and this is false. Useful for CI gates.
    pub fn is_regression(&self) -> (r: bool)
        ensures
            r == self.regressed(),
            r == (self.added@.len() > 0 || exists|i: int|
                0 <= i < self.changed@.len() && (#[trigger] self.changed@[i]).current.occurrence_count
                    > self.changed@[i].baseline.occurrence_count),
    {
        if self.added.len() != 0 {
            return true;
        }
        let n: usize = self.changed.len();
        let mut i: usize = 0;
        while i < n
            invariant
                n == self.changed@.len(),
                i <= n,
                self.added@.len() == 0,
                forall|j: int| 0 <= j < i ==> !(#[trigger] self.changed@[j]).increased(),
            decreases n - i,
        {
            let c = &self.changed[i];
            if c.current.occurrence_count > c.baseline.occurrence_count {
                assert(self.changed@[i as int].increased());
                return true;
            }
            i = i + 1;
        }
        false
    }
}

// ---------------------------------------------------------------------------
// Text report

/// A rule of 70 `=` characters.
pub open spec fn rule_line() -> Seq<char> {
    Seq::new(70, |_i: int| '=')
}

/// The concatenation of `f` applied to each item, in order.
pub open spec fn lines<T>(items: Seq<T>, f: spec_fn(T) -> Seq<char>) -> Seq<char>
    decreases items.len(),
{
    if items.len() == 0 {
        Seq::empty()
    } else {
        lines(items.drop_last(), f) + f(items.last())
    }
}

/// The report line of an added component.
pub open spec fn added_line(c: ComponentSnapshot) -> Seq<char> {
    "  + "@ + c.name@ + " ("@ + c.id@ + ")  priority="@ + int_text(c.priority as int)
        + " occurrences="@ + int_text(c.occurrence_count as int) + "\n"@
}

/// The report line of a removed component.
pub open spec fn removed_line(c: ComponentSnapshot) -> Seq<char> {
    "  - "@ + c.name@ + " ("@ + c.id@ + ")  was priority="@ + int_text(c.priority as int)
        + " occurrences="@ + int_text(c.occurrence_count as int) + "\n"@
}

/// The report line of a changed component: an up arrow when occurrences grew,
/// a down arrow otherwise.
pub open spec fn changed_line(c: ChangedComponent) -> Seq<char> {
    "  ~ "@ + c.name@ + " ("@ + c.id@ + ") "@ + (if c.delta() > 0 {
        "▲"@
    } else {
        "▼"@
    }) + " occurrences "@ + int_text(c.baseline.occurrence_count as int) + "→"@ + int_text(
        c.current.occurrence_count as int,
    ) + " ("@ + signed_text(c.delta()) + "), priority "@ + int_text(c.baseline.priority as int)
        + "→"@ + int_text(c.current.priority as int) + "\n"@
}

/// A titled section listing `items`, or nothing when there are none.
pub open spec fn section<T>(title: Seq<char>, items: Seq<T>, f: spec_fn(T) -> Seq<char>) -> Seq<
    char,
> {
    if items.len() == 0 {
        Seq::empty()
    } else {
        "\n"@ + title + " ("@ + nat_text(items.len()) + "):\n"@ + lines(items, f)
    }
}

/// The text report of a comparison.
pub open spec fn diff_text(d: Diff) -> Seq<char> {
    let head = "quantumseal — CryptoBOM baseline comparison\n"@ + rule_line() + "\n"@;
    if d.no_changes() {
        head + "No changes: current inventory matches the baseline.\n"@
    } else {
        head + section("ADDED"@, d.added@, |c: ComponentSnapshot| added_line(c)) + section(
            "REMOVED"@,
            d.removed@,
            |c: ComponentSnapshot| removed_line(c),
        ) + section("CHANGED"@, d.changed@, |c: ChangedComponent| changed_line(c)) + "\n"@
            + rule_line() + "\n"@ + "Regression (new or increased crypto exposure): "@ + (if d.regressed() {
            "YES"@
        } else {
            "no"@
        }) + "\n"@
    }
}

fn push_rule(out: &mut String)
    ensures
        final(out)@ == old(out)@ + rule_line(),
{
    let mut i: usize = 0;
    while i < 70
        invariant
            i <= 70,
            out@ == old(out)@ + Seq::new(i as nat, |_j: int| '='),
        decreases 70 - i,
    {
        let ghost before = out@;
        out.append("=");
        proof {
            reveal_strlit("=");
        }
        assert(out@ =~= before + seq!['=']);
        assert(out@ =~= old(out)@ + Seq::new((i + 1) as nat, |_j: int| '='));
        i = i + 1;
    }
}

fn push_added_line(out: &mut String, c: &ComponentSnapshot)
    ensures
        final(out)@ == old(out)@ + added_line(*c),
{
    out.append("  + ");
    out.append(c.name.as_str());
    out.append(" (");
    out.append(c.id.as_str());
    out.append(")  priority=");
    push_int(out, c.priority);
    out.append(" occurrences=");
    push_int(out, c.occurrence_count);
    out.append("\n");
    assert(out@ =~= old(out)@ + added_line(*c));
}

fn push_removed_line(out: &mut String, c: &ComponentSnapshot)
    ensures
        final(out)@ == old(out)@ + removed_line(*c),
{
    out.append("  - ");
    out.append(c.name.as_str());
    out.append(" (");
    out.append(c.id.as_str());
    out.append(")  was priority=");
    push_int(out, c.priority);
    out.append(" occurrences=");
    push_int(out, c.occurrence_count);
    out.append("\n");
    assert(out@ =~= old(out)@ + removed_line(*c));
}

fn push_changed_line(out: &mut String, c: &ChangedComponent)
    requires
        i64::MIN <= c.delta() <= i64::MAX,
    ensures
        final(out)@ == old(out)@ + changed_line(*c),
{
    let occ_delta: i64 = c.current.occurrence_count - c.baseline.occurrence_count;
    let arrow = if occ_delta > 0 {
        "▲"
    } else {
        "▼"
    };
    out.append("  ~ ");
    out.append(c.name.as_str());
    out.append(" (");
    out.append(c.id.as_str());
    out.append(") ");
    out.append(arrow);
    out.append(" occurrences ");
    push_int(out, c.baseline.occurrence_count);
    out.append("→");
    push_int(out, c.current.occurrence_count);
    out.append(" (");
    push_signed(out, occ_delta);
    out.append("), priority ");
    push_int(out, c.baseline.priority);
    out.append("→");
    push_int(out, c.current.priority);
    out.append("\n");
    assert(out@ =~= old(out)@ + changed_line(*c));
}

fn push_added_section(out: &mut String, items: &Vec<ComponentSnapshot>)
    ensures
        final(out)@ == old(out)@ + section(
            "ADDED"@,
            items@,
            |c: ComponentSnapshot| added_line(c),
        ),
{
    let ghost f = |c: ComponentSnapshot| added_line(c);
    let n: usize = items.len();
    if n == 0 {
        assert(out@ =~= old(out)@ + section("ADDED"@, items@, f));
        return;
    }
    out.append("\n");
    out.append("ADDED");
    out.append(" (");
    push_nat(out, n as u64);
    out.append("):\n");
    let ghost start = out@;
    let mut i: usize = 0;
    assert(items@.take(0) =~= Seq::<ComponentSnapshot>::empty());
    while i < n
        invariant
            n == items@.len(),
            i <= n,
            f == (|c: ComponentSnapshot| added_line(c)),
            out@ == start + lines(items@.take(i as int), f),
        decreases n - i,
    {
        push_added_line(out, &items[i]);
        assert(items@.take(i + 1).drop_last() =~= items@.take(i as int));
        i = i + 1;
    }
    assert(items@.take(n as int) =~= items@);
    assert(out@ =~= old(out)@ + section("ADDED"@, items@, f));
}

fn push_removed_section(out: &mut String, items: &Vec<ComponentSnapshot>)
    ensures
        final(out)@ == old(out)@ + section(
            "REMOVED"@,
            items@,
            |c: ComponentSnapshot| removed_line(c),
        ),
{
    let ghost f = |c: ComponentSnapshot| removed_line(c);
    let n: usize = items.len();
    if n == 0 {
        assert(out@ =~= old(out)@ + section("REMOVED"@, items@, f));
        return;
    }
    out.append("\n");
    out.append("REMOVED");
    out.append(" (");
    push_nat(out, n as u64);
    out.append("):\n");
    let ghost start = out@;
    let mut i: usize = 0;
    assert(items@.take(0) =~= Seq::<ComponentSnapshot>::empty());
    while i < n
        invariant
            n == items@.len(),
            i <= n,
            f == (|c: ComponentSnapshot| removed_line(c)),
            out@ == start + lines(items@.take(i as int), f),
        decreases n - i,
    {
        push_removed_line(out, &items[i]);
        assert(items@.take(i + 1).drop_last() =~= items@.take(i as int));
        i = i + 1;
    }
    assert(items@.take(n as int) =~= items@);
    assert(out@ =~= old(out)@ + section("REMOVED"@, items@, f));
}

fn push_changed_section(out: &mut String, items: &Vec<ChangedComponent>)
    requires
        forall|i: int|
            0 <= i < items@.len() ==> i64::MIN <= (#[trigger] items@[i]).delta() <= i64::MAX,
    ensures
        final(out)@ == old(out)@ + section(
            "CHANGED"@,
            items@,
            |c: ChangedComponent| changed_line(c),
        ),
{
    let ghost f = |c: ChangedComponent| changed_line(c);
    let n: usize = items.len();
    if n == 0 {
        assert(out@ =~= old(out)@ + section("CHANGED"@, items@, f));
        return;
    }
    out.append("\n");
    out.append("CHANGED");
    out.append(" (");
    push_nat(out, n as u64);
    out.append("):\n");
    let ghost start = out@;
    let mut i: usize = 0;
    assert(items@.take(0) =~= Seq::<ChangedComponent>::empty());
    while i < n
        invariant
            n == items@.len(),
            i <= n,
            f == (|c: ChangedComponent| changed_line(c)),
            forall|j: int|
                0 <= j < items@.len() ==> i64::MIN <= (#[trigger] items@[j]).delta() <= i64::MAX,
            out@ == start + lines(items@.take(i as int), f),
        decreases n - i,
    {
        push_changed_line(out, &items[i]);
        assert(items@.take(i + 1).drop_last() =~= items@.take(i as int));
        i = i + 1;
    }
    assert(items@.take(n as int) =~= items@);
    assert(out@ =~= old(out)@ + section("CHANGED"@, items@, f));
}

impl Diff {
    /// Render a text summary.
    pub fn to_text(&self) -> (out: String)
        requires
            self.deltas_fit(),
        ensures
            out@ == diff_text(*self),
            self.no_changes() ==> ends_with(
                out@,
                "No changes: current inventory matches the baseline.\n"@,
            ),
            !self.no_changes() && (self.added@.len() > 0 || exists|i: int|
                0 <= i < self.changed@.len() && (#[trigger] self.changed@[i]).current.occurrence_count
                    > self.changed@[i].baseline.occurrence_count) ==> ends_with(
                out@,
                "Regression (new or increased crypto exposure): "@ + "YES"@ + "\n"@,
            ),
            !self.no_changes() && !(self.added@.len() > 0 || exists|i: int|
                0 <= i < self.changed@.len() && (#[trigger] self.changed@[i]).current.occurrence_count
                    > self.changed@[i].baseline.occurrence_count) ==> ends_with(
                out@,
                "Regression (new or increased crypto exposure): "@ + "no"@ + "\n"@,
            ),
    {
        proof {
            lemma_text_verdict(*self);
        }
        let mut out = String::new();
        out.append("quantumseal — CryptoBOM baseline comparison\n");
        push_rule(&mut out);
        out.append("\n");
        if self.is_empty() {
            out.append("No changes: current inventory matches the baseline.\n");
            assert(out@ =~= diff_text(*self));
            return out;
        }
        push_added_section(&mut out, &self.added);
        push_removed_section(&mut out, &self.removed);
        push_changed_section(&mut out, &self.changed);
        out.append("\n");
        push_rule(&mut out);
        out.append("\n");
        out.append("Regression (new or increased crypto exposure): ");
        if self.is_regression() {
            out.append("YES");
        } else {
            out.append("no");
        }
        out.append("\n");
        assert(out@ =~= diff_text(*self));
        out
    }
}

// ---------------------------------------------------------------------------
// JSON report

/// `j` is the JSON object of snapshot `s`: members `file_count`, `id`, `name`,
/// `occurrence_count` and `priority`, in that order.
pub open spec fn snapshot_json(j: Json, s: ComponentSnapshot) -> bool {
    &&& j matches Json::Object(m)
    &&& m.entries().len() == 5
    &&& m.entries()[0].0@ == "file_count"@ && m.entries()[0].1 == Json::Number(s.file_count)
    &&& m.entries()[1].0@ == "id"@ && is_text(m.entries()[1].1, s.id@)
    &&& m.entries()[2].0@ == "name"@ && is_text(m.entries()[2].1, s.name@)
    &&& m.entries()[3].0@ == "occurrence_count"@ && m.entries()[3].1 == Json::Number(s.occurrence_count)
    &&& m.entries()[4].0@ == "priority"@ && m.entries()[4].1 == Json::Number(s.priority)
}

/// `j` is the JSON array of the snapshots `items`, in order.
pub open spec fn snapshots_json(j: Json, items: Seq<ComponentSnapshot>) -> bool {
    &&& j matches Json::Array(a)
    &&& a@.len() == items.len()
    &&& forall|i: int| 0 <= i < items.len() ==> snapshot_json(a@[i], #[trigger] items[i])
}

/// `j` is the JSON object of a changed component: members `baseline`,
/// `current`, `id`, `name` and `occurrence_delta`, in that order.
pub open spec fn changed_json(j: Json, c: ChangedComponent) -> bool {
    &&& j matches Json::Object(m)
    &&& m.entries().len() == 5
    &&& m.entries()[0].0@ == "baseline"@ && snapshot_json(m.entries()[0].1, c.baseline)
    &&& m.entries()[1].0@ == "current"@ && snapshot_json(m.entries()[1].1, c.current)
    &&& m.entries()[2].0@ == "id"@ && is_text(m.entries()[2].1, c.id@)
    &&& m.entries()[3].0@ == "name"@ && is_text(m.entries()[3].1, c.name@)
    &&& m.entries()[4].0@ == "occurrence_delta"@ && m.entries()[4].1 == Json::Number(c.delta() as i64)
}

/// `j` is the JSON array of the changed components `items`, in order.
pub open spec fn changed_list_json(j: Json, items: Seq<ChangedComponent>) -> bool {
    &&& j matches Json::Array(a)
    &&& a@.len() == items.len()
    &&& forall|i: int| 0 <= i < items.len() ==> changed_json(a@[i], #[trigger] items[i])
}

/// `j` is the JSON array of the strings `items`, in order.
pub open spec fn texts_json(j: Json, items: Seq<String>) -> bool {
    &&& j matches Json::Array(a)
    &&& a@.len() == items.len()
    &&& forall|i: int| 0 <= i < items.len() ==> is_text(a@[i], (#[trigger] items[i])@)
}

/// `j` is the JSON report of comparison `d`: members `added`, `changed`,
/// `kind` (`quantumseal-diff/1`), `regression`, `removed` and `unchanged`,
/// in that order.
pub open spec fn diff_json(j: Json, d: Diff) -> bool {
    &&& j matches Json::Object(m)
    &&& m.entries().len() == 6
    &&& m.entries()[0].0@ == "added"@ && snapshots_json(m.entries()[0].1, d.added@)
    &&& m.entries()[1].0@ == "changed"@ && changed_list_json(m.entries()[1].1, d.changed@)
    &&& m.entries()[2].0@ == "kind"@ && is_text(m.entries()[2].1, "quantumseal-diff/1"@)
    &&& m.entries()[3].0@ == "regression"@ && m.entries()[3].1 == Json::Bool(d.regressed())
    &&& m.entries()[4].0@ == "removed"@ && snapshots_json(m.entries()[4].1, d.removed@)
    &&& m.entries()[5].0@ == "unchanged"@ && texts_json(m.entries()[5].1, d.unchanged@)
}

fn member(key: &str, value: Json) -> (r: (String, Json))
    ensures
        r.0@ == key@,
        r.1 == value,
{
    (String::from_str(key), value)
}

fn snapshot_to_json(s: &ComponentSnapshot) -> (j: Json)
    ensures
        snapshot_json(j, *s),
{
    let mut obj: Vec<(String, Json)> = Vec::new();
    obj.push(member("file_count", Json::from_i64(s.file_count)));
    obj.push(member("id", Json::String(s.id.clone())));
    obj.push(member("name", Json::String(s.name.clone())));
    obj.push(member("occurrence_count", Json::from_i64(s.occurrence_count)));
    obj.push(member("priority", Json::from_i64(s.priority)));
    proof {
        lemma_snapshot_keys(obj@);
    }
    Json::Object(JsonObject::from_sorted(obj))
}

fn snapshots_to_json(items: &[ComponentSnapshot]) -> (j: Json)
    ensures
        snapshots_json(j, items@),
{
    let mut arr: Vec<Json> = Vec::new();
    let n: usize = items.len();
    let mut i: usize = 0;
    while i < n
        invariant
            n == items@.len(),
            i <= n,
            arr@.len() == i,
            forall|k: int| 0 <= k < i ==> snapshot_json(arr@[k], #[trigger] items@[k]),
        decreases n - i,
    {
        arr.push(snapshot_to_json(&items[i]));
        i = i + 1;
    }
    Json::Array(arr)
}

fn changed_to_json(c: &ChangedComponent) -> (j: Json)
    requires
        i64::MIN <= c.delta() <= i64::MAX,
    ensures
        changed_json(j, *c),
{
    let mut obj: Vec<(String, Json)> = Vec::new();
    obj.push(member("baseline", snapshot_to_json(&c.baseline)));
    obj.push(member("current", snapshot_to_json(&c.current)));
    obj.push(member("id", Json::String(c.id.clone())));
    obj.push(member("name", Json::String(c.name.clone())));
    obj.push(
        member(
            "occurrence_delta",
            Json::from_i64(c.current.occurrence_count - c.baseline.occurrence_count),
        ),
    );
    proof {
        lemma_changed_keys(obj@);
    }
    Json::Object(JsonObject::from_sorted(obj))
}

impl Diff {
    /// Render the diff as a [`Json`] value.
    pub fn to_json(&self) -> (j: Json)
        requires
            self.deltas_fit(),
        ensures
            diff_json(j, *self),
            j matches Json::Object(o) && lookup(o.entries(), "regression"@) == Some(
                Json::Bool((self.added@.len() > 0 || exists|i: int|
                0 <= i < self.changed@.len() && (#[trigger] self.changed@[i]).current.occurrence_count
                    > self.changed@[i].baseline.occurrence_count)),
            ),
    {
        let mut changed: Vec<Json> = Vec::new();
        let n: usize = self.changed.len();
        let mut i: usize = 0;
        while i < n
            invariant
                n == self.changed@.len(),
                i <= n,
                self.deltas_fit(),
                changed@.len() == i,
                forall|k: int| 0 <= k < i ==> changed_json(changed@[k], #[trigger] self.changed@[k]),
            decreases n - i,
        {
            changed.push(changed_to_json(&self.changed[i]));
            i = i + 1;
        }
        let mut unchanged: Vec<Json> = Vec::new();
        let u: usize = self.unchanged.len();
        let mut i: usize = 0;
        while i < u
            invariant
                u == self.unchanged@.len(),
                i <= u,
                unchanged@.len() == i,
                forall|k: int| 0 <= k < i ==> is_text(unchanged@[k], (#[trigger] self.unchanged@[k])@),
            decreases u - i,
        {
            unchanged.push(Json::String(self.unchanged[i].clone()));
            i = i + 1;
        }
        let mut root: Vec<(String, Json)> = Vec::new();
        root.push(member("added", snapshots_to_json(self.added.as_slice())));
        root.push(member("changed", Json::Array(changed)));
        root.push(member("kind", Json::String(String::from_str("quantumseal-diff/1"))));
        root.push(member("regression", Json::Bool(self.is_regression())));
        root.push(member("removed", snapshots_to_json(self.removed.as_slice())));
        root.push(member("unchanged", Json::Array(unchanged)));
        proof {
            lemma_report_keys(root@);
        }
        let j = Json::Object(JsonObject::from_sorted(root));
        proof {
            lemma_json_verdict(j, *self);
        }
        j
    }
}

proof fn lemma_snapshot_keys(m: Seq<(String, Json)>)
    requires
        m.len() == 5,
        m[0].0@ == "file_count"@,
        m[1].0@ == "id"@,
        m[2].0@ == "name"@,
        m[3].0@ == "occurrence_count"@,
        m[4].0@ == "priority"@,
    ensures
        keys_ascending(m),
{
    reveal_strlit("file_count");
    reveal_strlit("id");
    reveal_strlit("name");
    reveal_strlit("occurrence_count");
    reveal_strlit("priority");
}

proof fn lemma_changed_keys(m: Seq<(String, Json)>)
    requires
        m.len() == 5,
        m[0].0@ == "baseline"@,
        m[1].0@ == "current"@,
        m[2].0@ == "id"@,
        m[3].0@ == "name"@,
        m[4].0@ == "occurrence_delta"@,
    ensures
        keys_ascending(m),
{
    reveal_strlit("baseline");
    reveal_strlit("current");
    reveal_strlit("id");
    reveal_strlit("name");
    reveal_strlit("occurrence_delta");
}

proof fn lemma_report_keys(m: Seq<(String, Json)>)
    requires
        m.len() == 6,
        m[0].0@ == "added"@,
        m[1].0@ == "changed"@,
        m[2].0@ == "kind"@,
        m[3].0@ == "regression"@,
        m[4].0@ == "removed"@,
        m[5].0@ == "unchanged"@,
    ensures
        keys_ascending(m),
{
    reveal_strlit("added");
    reveal_strlit("changed");
    reveal_strlit("kind");
    reveal_strlit("regression");
    reveal_strlit("removed");
    reveal_strlit("unchanged");
    reveal_with_fuel(text_lt, 4);
    assert forall|a: int, b: int| 0 <= a < b < m.len() implies text_lt(m[a].0@, m[b].0@) by {
        if a == 3 && b == 4 {
            assert(m[a].0@.drop_first()[0] == 'e');
            assert(m[b].0@.drop_first()[0] == 'e');
            assert(m[a].0@.drop_first().drop_first()[0] == 'g');
            assert(m[b].0@.drop_first().drop_first()[0] == 'm');
        }
    }
}

/// A snapshot written as a JSON object reads back as the same snapshot.
pub proof fn lemma_snapshot_reads_back(j: Json, s: ComponentSnapshot)
    requires
        snapshot_json(j, s),
    ensures
        component_error(j) is None,
        component_view(j) == s@,
{
    reveal_strlit("file_count");
    reveal_strlit("id");
    reveal_strlit("name");
    reveal_strlit("occurrence_count");
    reveal_strlit("priority");
    reveal_with_fuel(lookup, 6);
    let m = j->Object_0.entries();
    assert(m[0].0@[0] == 'f');
    assert(m[1].0@[0] == 'i');
    assert(m[2].0@[0] == 'n');
    assert(m[3].0@[0] == 'o');
    assert(m[4].0@[0] == 'p');
    assert(m.drop_first()[0] == m[1]);
    assert(m.drop_first().drop_first()[0] == m[2]);
    assert(m.drop_first().drop_first().drop_first()[0] == m[3]);
    assert(m.drop_first().drop_first().drop_first().drop_first()[0] == m[4]);
    assert(lookup(m, "id"@) == Some(m[1].1));
    assert(lookup(m, "name"@) == Some(m[2].1));
    assert(lookup(m, "file_count"@) == Some(m[0].1));
    assert(lookup(m, "occurrence_count"@) == Some(m[3].1));
    assert(lookup(m, "priority"@) == Some(m[4].1));
}

/// A baseline document whose `components` are snapshots written as JSON
/// objects reads without error, and gives back exactly those snapshots.
pub proof fn lemma_written_snapshots_read_back(doc: Json, items: Seq<ComponentSnapshot>)
    requires
        doc matches Json::Object(m) && lookup(m.entries(), "components"@) matches Some(a) && snapshots_json(
            a,
            items,
        ),
    ensures
        baseline_error(doc) is None,
        baseline_components(doc).map_values(|j: Json| component_view(j)) == items.map_values(
            |s: ComponentSnapshot| s@,
        ),
{
    let cs = baseline_components(doc);
    assert forall|i: int| 0 <= i < cs.len() implies component_error(#[trigger] cs[i]) is None
        && component_view(cs[i]) == items[i]@ by {
        lemma_snapshot_reads_back(cs[i], items[i]);
    }
    lemma_no_component_error(cs);
    assert(cs.map_values(|j: Json| component_view(j)) =~= items.map_values(
        |s: ComponentSnapshot| s@,
    ));
}

proof fn lemma_no_component_error(cs: Seq<Json>)
    requires
        forall|i: int| 0 <= i < cs.len() ==> component_error(#[trigger] cs[i]) is None,
    ensures
        first_component_error(cs) is None,
    decreases cs.len(),
{
    if cs.len() > 0 {
        assert forall|i: int| 0 <= i < cs.drop_first().len() implies component_error(
            #[trigger] cs.drop_first()[i],
        ) is None by {
            assert(cs.drop_first()[i] == cs[i + 1]);
        }
        lemma_no_component_error(cs.drop_first());
    }
}

/// The text report does not depend on the unchanged ids: two comparisons with
/// the same added, removed and changed components have the same text report.
pub proof fn lemma_text_ignores_unchanged(d1: Diff, d2: Diff)
    requires
        d1.added@ == d2.added@,
        d1.removed@ == d2.removed@,
        d1.changed@ == d2.changed@,
    ensures
        diff_text(d1) == diff_text(d2),
{
}

/// A comparison that found no changes reports no regression.
pub proof fn lemma_no_changes_no_regression(d: Diff)
    requires
        d.no_changes(),
    ensures
        !d.regressed(),
{
}

// ---------------------------------------------------------------------------
// What "changed" and "regression" mean

/// A comparison has changes exactly when some component was added, removed or
/// changed; any changed component counts, whatever its metrics.
pub proof fn lemma_changes_meaning(d: Diff)
    ensures
        d.no_changes() <==> (d.added@.len() == 0 && d.removed@.len() == 0 && d.changed@.len()
            == 0),
        d.changed@.len() > 0 ==> !d.no_changes(),
{
}

/// A comparison is a regression exactly when something was added or some
/// changed component's occurrence count strictly grew.
pub proof fn lemma_regression_meaning(d: Diff)
    ensures
        d.regressed() <==> (d.added@.len() > 0 || exists|i: int|
            0 <= i < d.changed@.len() && (#[trigger] d.changed@[i]).current.occurrence_count
                > d.changed@[i].baseline.occurrence_count),
{
}

/// Nothing added, and no occurrence count grown (each kept or lowered), is no
/// regression, whatever was removed.
pub proof fn lemma_no_growth_no_regression(d: Diff)
    requires
        d.added@.len() == 0,
        forall|i: int|
            0 <= i < d.changed@.len() ==> (#[trigger] d.changed@[i]).current.occurrence_count
                <= d.changed@[i].baseline.occurrence_count,
    ensures
        !d.regressed(),
{
}

/// An added component is a regression.
pub proof fn lemma_addition_is_regression(d: Diff)
    requires
        d.added@.len() > 0,
    ensures
        d.regressed(),
{
}

/// A changed component whose occurrence count grew is a regression.
pub proof fn lemma_growth_is_regression(d: Diff, i: int)
    requires
        0 <= i < d.changed@.len(),
        d.changed@[i].current.occurrence_count > d.changed@[i].baseline.occurrence_count,
    ensures
        d.regressed(),
{
    assert(d.changed@[i].increased());
}

/// `t` ends with `s`.
pub open spec fn ends_with(t: Seq<char>, s: Seq<char>) -> bool {
    s.len() <= t.len() && t.subrange(t.len() - s.len(), t.len() as int) == s
}

proof fn lemma_ends_with_concat(y: Seq<char>, s: Seq<char>)
    ensures
        ends_with(y + s, s),
{
    assert((y + s).subrange((y + s).len() - s.len(), (y + s).len() as int) =~= s);
}

/// The last line of the text report: for a comparison that found nothing, the
/// line saying the inventory matches the baseline; otherwise the regression
/// line, which says YES exactly when something was added or some occurrence
/// count grew, and no otherwise.
pub proof fn lemma_text_verdict(d: Diff)
    ensures
        (d.added@.len() == 0 && d.removed@.len() == 0 && d.changed@.len() == 0) ==> ends_with(
            diff_text(d),
            "No changes: current inventory matches the baseline.\n"@,
        ),
        !(d.added@.len() == 0 && d.removed@.len() == 0 && d.changed@.len() == 0) && (
        d.added@.len() > 0 || exists|i: int|
            0 <= i < d.changed@.len() && (#[trigger] d.changed@[i]).current.occurrence_count
                > d.changed@[i].baseline.occurrence_count) ==> ends_with(
            diff_text(d),
            "Regression (new or increased crypto exposure): "@ + "YES"@ + "\n"@,
        ),
        !(d.added@.len() == 0 && d.removed@.len() == 0 && d.changed@.len() == 0) && !(
        d.added@.len() > 0 || exists|i: int|
            0 <= i < d.changed@.len() && (#[trigger] d.changed@[i]).current.occurrence_count
                > d.changed@[i].baseline.occurrence_count) ==> ends_with(
            diff_text(d),
            "Regression (new or increased crypto exposure): "@ + "no"@ + "\n"@,
        ),
{
    lemma_regression_meaning(d);
    let t = diff_text(d);
    let head = "quantumseal — CryptoBOM baseline comparison\n"@ + rule_line() + "\n"@;
    if d.no_changes() {
        lemma_ends_with_concat(head, "No changes: current inventory matches the baseline.\n"@);
    } else {
        let body = head + section("ADDED"@, d.added@, |c: ComponentSnapshot| added_line(c))
            + section("REMOVED"@, d.removed@, |c: ComponentSnapshot| removed_line(c)) + section(
            "CHANGED"@,
            d.changed@,
            |c: ChangedComponent| changed_line(c),
        ) + "\n"@ + rule_line() + "\n"@;
        let v = if d.regressed() {
            "YES"@
        } else {
            "no"@
        };
        let s = "Regression (new or increased crypto exposure): "@ + v + "\n"@;
        assert(t =~= body + s);
        lemma_ends_with_concat(body, s);
    }
}

/// `j` is an object holding snapshot `s` under its keys: `id` and `name` as
/// strings, `priority`, `occurrence_count` and `file_count` as integers.
pub open spec fn has_snapshot_members(j: Json, s: ComponentSnapshot) -> bool {
    &&& j matches Json::Object(o)
    &&& text_of(lookup(j->Object_0.entries(), "id"@)) == Some(s.id@)
    &&& text_of(lookup(j->Object_0.entries(), "name"@)) == Some(s.name@)
    &&& lookup(j->Object_0.entries(), "priority"@) == Some(Json::Number(s.priority))
    &&& lookup(j->Object_0.entries(), "occurrence_count"@) == Some(
        Json::Number(s.occurrence_count),
    )
    &&& lookup(j->Object_0.entries(), "file_count"@) == Some(Json::Number(s.file_count))
}

/// The value under `key` of object `j`.
pub open spec fn member_of(j: Json, key: Seq<char>) -> Option<Json> {
    lookup(j->Object_0.entries(), key)
}

/// A snapshot's JSON object holds each of its fields under the field's key.
pub proof fn lemma_snapshot_members(j: Json, s: ComponentSnapshot)
    requires
        snapshot_json(j, s),
    ensures
        has_snapshot_members(j, s),
{
    let m = j->Object_0.entries();
    lemma_snapshot_keys(m);
    lemma_lookup_sorted(m, "id"@);
    lemma_lookup_sorted(m, "name"@);
    lemma_lookup_sorted(m, "priority"@);
    lemma_lookup_sorted(m, "occurrence_count"@);
    lemma_lookup_sorted(m, "file_count"@);
    assert(m[1].0@ == "id"@);
    assert(m[2].0@ == "name"@);
    assert(m[4].0@ == "priority"@);
    assert(m[3].0@ == "occurrence_count"@);
    assert(m[0].0@ == "file_count"@);
}

/// A changed component's JSON object holds its id and name, its baseline and
/// current snapshots, and the change of its occurrence count (current minus
/// baseline).
pub proof fn lemma_changed_members(j: Json, c: ChangedComponent)
    requires
        changed_json(j, c),
    ensures
        j is Object,
        text_of(member_of(j, "id"@)) == Some(c.id@),
        text_of(member_of(j, "name"@)) == Some(c.name@),
        member_of(j, "baseline"@) matches Some(b) && has_snapshot_members(b, c.baseline),
        member_of(j, "current"@) matches Some(b) && has_snapshot_members(b, c.current),
        member_of(j, "occurrence_delta"@) == Some(
            Json::Number((c.current.occurrence_count - c.baseline.occurrence_count) as i64),
        ),
{
    let m = j->Object_0.entries();
    lemma_changed_keys(m);
    lemma_lookup_sorted(m, "id"@);
    lemma_lookup_sorted(m, "name"@);
    lemma_lookup_sorted(m, "baseline"@);
    lemma_lookup_sorted(m, "current"@);
    lemma_lookup_sorted(m, "occurrence_delta"@);
    assert(m[0].0@ == "baseline"@);
    assert(m[1].0@ == "current"@);
    assert(m[2].0@ == "id"@);
    assert(m[3].0@ == "name"@);
    assert(m[4].0@ == "occurrence_delta"@);
    lemma_snapshot_members(m[0].1, c.baseline);
    lemma_snapshot_members(m[1].1, c.current);
}

/// What the JSON report holds under each key: `kind` is
/// `quantumseal-diff/1`; `added` and `removed` are arrays of the added and
/// removed snapshots, in order; `changed` is an array of the changed
/// components, in order; `unchanged` is an array of the unchanged ids, in order.
pub proof fn lemma_report_members(j: Json, d: Diff)
    requires
        diff_json(j, d),
    ensures
        j is Object,
        text_of(member_of(j, "kind"@)) == Some("quantumseal-diff/1"@),
        member_of(j, "added"@) matches Some(Json::Array(a)) && a@.len() == d.added@.len() && (
        forall|i: int| 0 <= i < a@.len() ==> has_snapshot_members(#[trigger] a@[i], d.added@[i])),
        member_of(j, "removed"@) matches Some(Json::Array(a)) && a@.len() == d.removed@.len() && (
        forall|i: int|
            0 <= i < a@.len() ==> has_snapshot_members(#[trigger] a@[i], d.removed@[i])),
        member_of(j, "changed"@) matches Some(Json::Array(a)) && a@.len() == d.changed@.len() && (
        forall|i: int|
            0 <= i < a@.len() ==> text_of(member_of(#[trigger] a@[i], "id"@)) == Some(
                d.changed@[i].id@,
            ) && member_of(a@[i], "occurrence_delta"@) == Some(
                Json::Number(
                    (d.changed@[i].current.occurrence_count
                        - d.changed@[i].baseline.occurrence_count) as i64,
                ),
            )),
        member_of(j, "unchanged"@) matches Some(Json::Array(a)) && a@.len() == d.unchanged@.len()
            && (forall|i: int|
            0 <= i < a@.len() ==> text_of(Some(#[trigger] a@[i])) == Some(d.unchanged@[i]@)),
{
    let m = j->Object_0.entries();
    lemma_report_keys(m);
    lemma_lookup_sorted(m, "kind"@);
    lemma_lookup_sorted(m, "added"@);
    lemma_lookup_sorted(m, "removed"@);
    lemma_lookup_sorted(m, "changed"@);
    lemma_lookup_sorted(m, "unchanged"@);
    assert(m[0].0@ == "added"@);
    assert(m[1].0@ == "changed"@);
    assert(m[2].0@ == "kind"@);
    assert(m[4].0@ == "removed"@);
    assert(m[5].0@ == "unchanged"@);
    let added = m[0].1->Array_0@;
    assert forall|i: int| 0 <= i < added.len() implies has_snapshot_members(
        #[trigger] added[i],
        d.added@[i],
    ) by {
        lemma_snapshot_members(added[i], d.added@[i]);
    }
    let removed = m[4].1->Array_0@;
    assert forall|i: int| 0 <= i < removed.len() implies has_snapshot_members(
        #[trigger] removed[i],
        d.removed@[i],
    ) by {
        lemma_snapshot_members(removed[i], d.removed@[i]);
    }
    let changed = m[1].1->Array_0@;
    assert forall|i: int| 0 <= i < changed.len() implies text_of(
        member_of(#[trigger] changed[i], "id"@),
    ) == Some(d.changed@[i].id@) && member_of(changed[i], "occurrence_delta"@) == Some(
        Json::Number(
            (d.changed@[i].current.occurrence_count - d.changed@[i].baseline.occurrence_count) as i64,
        ),
    ) by {
        lemma_changed_members(changed[i], d.changed@[i]);
    }
}

/// The JSON report's `regression` member is true exactly when something was
/// added or some occurrence count grew.
pub proof fn lemma_json_verdict(j: Json, d: Diff)
    requires
        diff_json(j, d),
    ensures
        j matches Json::Object(o) && lookup(o.entries(), "regression"@) == Some(
            Json::Bool(
                d.added@.len() > 0 || exists|i: int|
                    0 <= i < d.changed@.len() && (#[trigger] d.changed@[i]).current.occurrence_count
                        > d.changed@[i].baseline.occurrence_count,
            ),
        ),
{
    lemma_regression_meaning(d);
    let m = j->Object_0.entries();
    lemma_report_keys(m);
    lemma_lookup_sorted(m, "regression"@);
    assert(m[3].0@ == "regression"@);
}

// ---------------------------------------------------------------------------
// Snapshots keyed by id

/// The ids of `v` come in strictly ascending order (so each id occurs once).
pub open spec fn ids_ascending(v: Seq<ComponentSnapshot>) -> bool {
    forall|i: int, j: int| 0 <= i < j < v.len() ==> text_lt(v[i].id@, v[j].id@)
}

/// The snapshots that a sequence of insertions leaves, keyed by id: a later
/// snapshot with the same id replaces an earlier one.
pub open spec fn snapshot_map(vs: Seq<SnapshotView>) -> Map<Seq<char>, SnapshotView>
    decreases vs.len(),
{
    if vs.len() == 0 {
        Map::empty()
    } else {
        snapshot_map(vs.drop_last()).insert(vs.last().id, vs.last())
    }
}

/// `v`, sorted by id with each id once, holds exactly the snapshots of `m`.
pub open spec fn represents(v: Seq<ComponentSnapshot>, m: Map<Seq<char>, SnapshotView>) -> bool {
    &&& ids_ascending(v)
    &&& forall|i: int|
        0 <= i < v.len() ==> m.contains_key((#[trigger] v[i]).id@) && m[v[i].id@] == v[i]@
    &&& forall|k: Seq<char>| #[trigger]
        m.contains_key(k) ==> exists|i: int| 0 <= i < v.len() && (#[trigger] v[i]).id@ == k
}

proof fn lemma_ascending_distinct(v: Seq<ComponentSnapshot>, i: int, j: int)
    requires
        ids_ascending(v),
        0 <= i < v.len(),
        0 <= j < v.len(),
        i != j,
    ensures
        v[i].id@ != v[j].id@,
{
    if i < j {
        lemma_text_lt_irreflexive(v[i].id@);
    } else {
        lemma_text_lt_irreflexive(v[j].id@);
    }
}

/// Inserts `s` into the snapshots of `v` by id, replacing one with the same id.
fn insert_snapshot(
    v: &mut Vec<ComponentSnapshot>,
    s: ComponentSnapshot,
    Ghost(m): Ghost<Map<Seq<char>, SnapshotView>>,
)
    requires
        represents(old(v)@, m),
    ensures
        represents(final(v)@, m.insert(s.id@, s@)),
{
    let ghost k = s.id@;
    let n: usize = v.len();
    let mut p: usize = 0;
    while p < n && text_less(v[p].id.as_str(), s.id.as_str())
        invariant
            n == v@.len(),
            p <= n,
            represents(v@, m),
            k == s.id@,
            forall|j: int| 0 <= j < p ==> text_lt((#[trigger] v@[j]).id@, k),
        decreases n - p,
    {
        p = p + 1;
    }
    let ghost m2 = m.insert(k, s@);
    if p < n && text_equal(v[p].id.as_str(), s.id.as_str()) {
        let ghost old_v = v@;
        v.set(p, s);
        proof {
            assert(v@ == old_v.update(p as int, s));
            assert forall|i: int, j: int| 0 <= i < j < v@.len() implies text_lt(
                v@[i].id@,
                v@[j].id@,
            ) by {
                assert(v@[i].id@ == old_v[i].id@);
                assert(v@[j].id@ == old_v[j].id@);
            }
            assert forall|i: int| 0 <= i < v@.len() implies m2.contains_key(
                (#[trigger] v@[i]).id@,
            ) && m2[v@[i].id@] == v@[i]@ by {
                if i != p {
                    lemma_ascending_distinct(old_v, i, p as int);
                }
            }
            assert forall|kk: Seq<char>| #[trigger] m2.contains_key(kk) implies exists|i: int|
                0 <= i < v@.len() && (#[trigger] v@[i]).id@ == kk by {
                if kk == k {
                    assert(v@[p as int].id@ == kk);
                } else {
                    let i = choose|i: int| 0 <= i < old_v.len() && (#[trigger] old_v[i]).id@ == kk;
                    assert(v@[i].id@ == kk);
                }
            }
        }
    } else {
        let ghost old_v = v@;
        proof {
            if p < n {
                lemma_text_lt_total(old_v[p as int].id@, k);
                assert(text_lt(k, old_v[p as int].id@));
            }
            assert forall|j: int| p <= j < n implies text_lt(k, (#[trigger] old_v[j]).id@) by {
                if j > p {
                    lemma_text_lt_transitive(k, old_v[p as int].id@, old_v[j].id@);
                }
            }
        }
        v.insert(p, s);
        proof {
            assert(v@ == old_v.insert(p as int, s));
            assert forall|i: int, j: int| 0 <= i < j < v@.len() implies text_lt(
                v@[i].id@,
                v@[j].id@,
            ) by {
                if i < p && j == p {
                } else if i < p && j > p {
                    assert(v@[j] == old_v[j - 1]);
                    lemma_text_lt_transitive(old_v[i].id@, k, old_v[j - 1].id@);
                } else if i == p {
                    assert(v@[j] == old_v[j - 1]);
                } else if i > p {
                    assert(v@[i] == old_v[i - 1]);
                    assert(v@[j] == old_v[j - 1]);
                }
            }
            assert forall|i: int| 0 <= i < v@.len() implies m2.contains_key(
                (#[trigger] v@[i]).id@,
            ) && m2[v@[i].id@] == v@[i]@ by {
                if i < p {
                    assert(v@[i] == old_v[i]);
                    lemma_text_lt_irreflexive(k);
                } else if i > p {
                    assert(v@[i] == old_v[i - 1]);
                    lemma_text_lt_irreflexive(k);
                }
            }
            assert forall|kk: Seq<char>| #[trigger] m2.contains_key(kk) implies exists|i: int|
                0 <= i < v@.len() && (#[trigger] v@[i]).id@ == kk by {
                if kk == k {
                    assert(v@[p as int].id@ == kk);
                } else {
                    let i = choose|i: int| 0 <= i < old_v.len() && (#[trigger] old_v[i]).id@ == kk;
                    if i < p {
                        assert(v@[i].id@ == kk);
                    } else {
                        assert(v@[i + 1].id@ == kk);
                    }
                }
            }
        }
    }
}

/// Why a component of a baseline document cannot be read, if it cannot.
pub open spec fn component_error(j: Json) -> Option<Seq<char>> {
    match j {
        Json::Object(m) => if text_of(lookup(m.entries(), "id"@)) is Some {
            None
        } else {
            Some("component missing 'id'"@)
        },
        _ => Some("component is not an object"@),
    }
}

/// The snapshot that a readable component of a baseline document gives: its
/// `id`; its `name`, or the id when there is no string `name`; and its
/// `priority`, `occurrence_count` and `file_count`, each 0 when there is no
/// integer under that key.
pub open spec fn component_view(j: Json) -> SnapshotView {
    match j {
        Json::Object(m) => {
            let id = text_of(lookup(m.entries(), "id"@)).unwrap();
            SnapshotView {
                id: id,
                name: match text_of(lookup(m.entries(), "name"@)) {
                    Some(t) => t,
                    None => id,
                },
                priority: match int_of(lookup(m.entries(), "priority"@)) {
                    Some(n) => n,
                    None => 0,
                },
                occurrence_count: match int_of(lookup(m.entries(), "occurrence_count"@)) {
                    Some(n) => n,
                    None => 0,
                },
                file_count: match int_of(lookup(m.entries(), "file_count"@)) {
                    Some(n) => n,
                    None => 0,
                },
            }
        },
        _ => arbitrary(),
    }
}

/// The error of the first component that cannot be read, if any.
pub open spec fn first_component_error(cs: Seq<Json>) -> Option<Seq<char>>
    decreases cs.len(),
{
    if cs.len() == 0 {
        None
    } else {
        match component_error(cs[0]) {
            Some(e) => Some(e),
            None => first_component_error(cs.drop_first()),
        }
    }
}

/// The `components` array of a baseline document (empty when it has none).
pub open spec fn baseline_components(doc: Json) -> Seq<Json> {
    match doc {
        Json::Object(m) => match lookup(m.entries(), "components"@) {
            Some(Json::Array(cs)) => cs@,
            _ => Seq::empty(),
        },
        _ => Seq::empty(),
    }
}

/// Why a baseline document cannot be read, if it cannot: the root is not an
/// object, it has no `components` array, or (the first such) component is not
/// an object or has no string `id`.
pub open spec fn baseline_error(doc: Json) -> Option<Seq<char>> {
    match doc {
        Json::Object(m) => match lookup(m.entries(), "components"@) {
            Some(Json::Array(cs)) => first_component_error(cs@),
            _ => Some("baseline has no 'components' array"@),
        },
        _ => Some("baseline root is not an object"@),
    }
}

/// Reads one component of a baseline document.
fn read_component(comp: &Json) -> (r: Result<ComponentSnapshot, String>)
    ensures
        match r {
            Ok(s) => component_error(*comp) is None && s@ == component_view(*comp),
            Err(e) => component_error(*comp) == Some(e@),
        },
{
    let co = match comp.as_object() {
        Some(o) => o,
        None => {
            return Err(String::from_str("component is not an object"));
        },
    };
    let id_text = match co.get("id") {
        Some(v) => match v.as_str() {
            Some(t) => t,
            None => {
                return Err(String::from_str("component missing 'id'"));
            },
        },
        None => {
            return Err(String::from_str("component missing 'id'"));
        },
    };
    let name = match co.get("name") {
        Some(v) => match v.as_str() {
            Some(t) => String::from_str(t),
            None => String::from_str(id_text),
        },
        None => String::from_str(id_text),
    };
    let priority: i64 = match co.get("priority") {
        Some(v) => match v.as_i64() {
            Some(x) => x,
            None => 0,
        },
        None => 0,
    };
    let occurrence_count: i64 = match co.get("occurrence_count") {
        Some(v) => match v.as_i64() {
            Some(x) => x,
            None => 0,
        },
        None => 0,
    };
    let file_count: i64 = match co.get("file_count") {
        Some(v) => match v.as_i64() {
            Some(x) => x,
            None => 0,
        },
        None => 0,
    };
    Ok(ComponentSnapshot { id: String::from_str(id_text), name, priority, occurrence_count, file_count })
}

/// Reads the snapshots of a baseline document.
fn read_snapshots(doc: &Json) -> (r: Result<Vec<ComponentSnapshot>, String>)
    ensures
        r is Ok <==> baseline_error(*doc) is None,
        r matches Err(e) ==> baseline_error(*doc) == Some(e@),
        r matches Ok(v) ==> represents(
            v@,
            snapshot_map(baseline_components(*doc).map_values(|j: Json| component_view(j))),
        ),
{
    let obj = match doc.as_object() {
        Some(o) => o,
        None => {
            return Err(String::from_str("baseline root is not an object"));
        },
    };
    let components = match obj.get("components") {
        Some(c) => match c.as_array() {
            Some(a) => a,
            None => {
                return Err(String::from_str("baseline has no 'components' array"));
            },
        },
        None => {
            return Err(String::from_str("baseline has no 'components' array"));
        },
    };
    let ghost cs = components@;
    let ghost views = cs.map_values(|j: Json| component_view(j));
    assert(cs == baseline_components(*doc));
    let mut map: Vec<ComponentSnapshot> = Vec::new();
    let n: usize = components.len();
    let mut i: usize = 0;
    assert(views.take(0) =~= Seq::<SnapshotView>::empty());
    assert(cs.skip(0) =~= cs);
    while i < n
        invariant
            n == cs.len(),
            cs == components@,
            views == cs.map_values(|j: Json| component_view(j)),
            i <= n,
            baseline_error(*doc) == first_component_error(cs),
            first_component_error(cs) == first_component_error(cs.skip(i as int)),
            represents(map@, snapshot_map(views.take(i as int))),
        decreases n - i,
    {
        let s = match read_component(&components[i]) {
            Ok(s) => s,
            Err(e) => {
                return Err(e);
            },
        };
        assert(cs.skip(i as int).drop_first() =~= cs.skip(i + 1));
        assert(s@ == views[i as int]);
        assert(views.take(i + 1).drop_last() =~= views.take(i as int));
        insert_snapshot(&mut map, s, Ghost(snapshot_map(views.take(i as int))));
        i = i + 1;
    }
    assert(views.take(n as int) =~= views);
    Ok(map)
}

/// Extract component snapshots from a parsed CryptoBOM JSON document.
///
/// The result holds one snapshot per id, sorted by id; where ids repeat, the
/// last component with that id wins.
pub fn snapshots_from_json(doc: &Json) -> (r: Result<Vec<ComponentSnapshot>, String>)
    ensures
        r is Ok <==> baseline_error(*doc) is None,
        r matches Err(e) ==> baseline_error(*doc) == Some(e@),
        r matches Ok(v) ==> represents(
            v@,
            snapshot_map(baseline_components(*doc).map_values(|j: Json| component_view(j))),
        ),
        r matches Ok(v) ==> forall|a: int, b: int|
            0 <= a < b < v@.len() ==> text_lt(v@[a].id@, v@[b].id@),
        r matches Ok(v) ==> forall|j: int|
            0 <= j < baseline_components(*doc).len() ==> exists|i: int|
                0 <= i < v@.len() && Some((#[trigger] v@[i]).id@) == id_of(
                    #[trigger] baseline_components(*doc)[j],
                ),
        r matches Ok(v) ==> forall|i: int|
            0 <= i < v@.len() ==> read_from_last(baseline_components(*doc), #[trigger] v@[i]),
{
    let r = read_snapshots(doc);
    proof {
        if r is Ok {
            lemma_json_snapshots(*doc, r->Ok_0@);
        }
    }
    r
}

/// Two components give the same reading: both are objects with the same values
/// under `id`, `name`, `priority`, `occurrence_count` and `file_count` (any
/// other members may differ), or neither is an object.
pub open spec fn same_component_reading(a: Json, b: Json) -> bool {
    match (a, b) {
        (Json::Object(m1), Json::Object(m2)) => {
            &&& lookup(m1.entries(), "id"@) == lookup(m2.entries(), "id"@)
            &&& lookup(m1.entries(), "name"@) == lookup(m2.entries(), "name"@)
            &&& lookup(m1.entries(), "priority"@) == lookup(m2.entries(), "priority"@)
            &&& lookup(m1.entries(), "occurrence_count"@) == lookup(
                m2.entries(),
                "occurrence_count"@,
            )
            &&& lookup(m1.entries(), "file_count"@) == lookup(m2.entries(), "file_count"@)
        },
        (Json::Object(_), _) => false,
        (_, Json::Object(_)) => false,
        _ => true,
    }
}

/// Two baseline documents give the same reading: both are objects whose
/// `components` arrays have the same length and, position by position,
/// components that give the same reading (any other members may differ); or
/// both are objects without a `components` array; or neither is an object.
pub open spec fn same_baseline_reading(d1: Json, d2: Json) -> bool {
    match (d1, d2) {
        (Json::Object(m1), Json::Object(m2)) => match (
            lookup(m1.entries(), "components"@),
            lookup(m2.entries(), "components"@),
        ) {
            (Some(Json::Array(a1)), Some(Json::Array(a2))) => {
                &&& a1@.len() == a2@.len()
                &&& forall|i: int|
                    0 <= i < a1@.len() ==> same_component_reading(
                        #[trigger] a1@[i],
                        a2@[i],
                    )
            },
            (Some(Json::Array(_)), _) => false,
            (_, Some(Json::Array(_))) => false,
            _ => true,
        },
        (Json::Object(_), _) => false,
        (_, Json::Object(_)) => false,
        _ => true,
    }
}

proof fn lemma_same_first_error(c1: Seq<Json>, c2: Seq<Json>)
    requires
        c1.len() == c2.len(),
        forall|i: int| 0 <= i < c1.len() ==> same_component_reading(#[trigger] c1[i], c2[i]),
    ensures
        first_component_error(c1) == first_component_error(c2),
    decreases c1.len(),
{
    if c1.len() > 0 {
        assert(same_component_reading(c1[0], c2[0]));
        assert forall|i: int| 0 <= i < c1.drop_first().len() implies same_component_reading(
            #[trigger] c1.drop_first()[i],
            c2.drop_first()[i],
        ) by {
            assert(c1.drop_first()[i] == c1[i + 1]);
            assert(c2.drop_first()[i] == c2[i + 1]);
            assert(same_component_reading(c1[i + 1], c2[i + 1]));
        }
        lemma_same_first_error(c1.drop_first(), c2.drop_first());
    }
}

/// Reading a baseline document looks at nothing but the members it reads: two
/// documents that give the same reading (they may differ in any other member,
/// of the root or of a component) fail with the same error or give the same
/// components.
pub proof fn lemma_reading_ignores_other_members(d1: Json, d2: Json)
    requires
        same_baseline_reading(d1, d2),
    ensures
        baseline_error(d1) == baseline_error(d2),
        baseline_components(d1).map_values(|j: Json| component_view(j)) == baseline_components(
            d2,
        ).map_values(|j: Json| component_view(j)),
{
    let c1 = baseline_components(d1);
    let c2 = baseline_components(d2);
    if d1 is Object && d2 is Object {
        let l1 = lookup(d1->Object_0.entries(), "components"@);
        let l2 = lookup(d2->Object_0.entries(), "components"@);
        if l1 matches Some(Json::Array(_)) {
            lemma_same_first_error(c1, c2);
            assert forall|i: int| 0 <= i < c1.len() implies component_view(c1[i]) == component_view(
                c2[i],
            ) by {
                assert(same_component_reading(c1[i], c2[i]));
            }
        }
    }
    assert(c1.map_values(|j: Json| component_view(j)) =~= c2.map_values(
        |j: Json| component_view(j),
    ));
}

/// Snapshots sorted by id, each id once, are fixed by the map they hold: two
/// such vectors holding the same map hold the same snapshots in the same order.
pub proof fn lemma_represents_unique(
    v1: Seq<ComponentSnapshot>,
    v2: Seq<ComponentSnapshot>,
    m: Map<Seq<char>, SnapshotView>,
)
    requires
        represents(v1, m),
        represents(v2, m),
    ensures
        v1.map_values(|s: ComponentSnapshot| s@) == v2.map_values(|s: ComponentSnapshot| s@),
    decreases v1.len(),
{
    if v1.len() == 0 {
        if v2.len() > 0 {
            assert(m.contains_key(v2[0].id@));
        }
    } else {
        let k1 = v1[0].id@;
        assert(m.contains_key(k1));
        assert(v2.len() > 0);
        let k2 = v2[0].id@;
        assert(m.contains_key(k2));
        if k1 != k2 {
            let j = choose|j: int| 0 <= j < v2.len() && (#[trigger] v2[j]).id@ == k1;
            let i = choose|i: int| 0 <= i < v1.len() && (#[trigger] v1[i]).id@ == k2;
            assert(j > 0 && i > 0);
            assert(text_lt(k2, k1));
            assert(text_lt(k1, k2));
            lemma_text_lt_total(k1, k2);
        }
        let m2 = m.remove(k1);
        let r1 = v1.drop_first();
        let r2 = v2.drop_first();
        assert forall|a: int, b: int| 0 <= a < b < r1.len() implies text_lt(
            r1[a].id@,
            r1[b].id@,
        ) by {
            assert(r1[a] == v1[a + 1] && r1[b] == v1[b + 1]);
        }
        assert forall|a: int, b: int| 0 <= a < b < r2.len() implies text_lt(
            r2[a].id@,
            r2[b].id@,
        ) by {
            assert(r2[a] == v2[a + 1] && r2[b] == v2[b + 1]);
        }
        assert forall|i: int| 0 <= i < r1.len() implies m2.contains_key((#[trigger] r1[i]).id@)
            && m2[r1[i].id@] == r1[i]@ by {
            assert(r1[i] == v1[i + 1]);
            lemma_ascending_distinct(v1, 0, i + 1);
        }
        assert forall|i: int| 0 <= i < r2.len() implies m2.contains_key((#[trigger] r2[i]).id@)
            && m2[r2[i].id@] == r2[i]@ by {
            assert(r2[i] == v2[i + 1]);
            lemma_ascending_distinct(v2, 0, i + 1);
        }
        assert forall|k: Seq<char>| #[trigger] m2.contains_key(k) implies exists|i: int|
            0 <= i < r1.len() && (#[trigger] r1[i]).id@ == k by {
            let i = choose|i: int| 0 <= i < v1.len() && (#[trigger] v1[i]).id@ == k;
            assert(r1[i - 1] == v1[i]);
        }
        assert forall|k: Seq<char>| #[trigger] m2.contains_key(k) implies exists|i: int|
            0 <= i < r2.len() && (#[trigger] r2[i]).id@ == k by {
            let i = choose|i: int| 0 <= i < v2.len() && (#[trigger] v2[i]).id@ == k;
            assert(r2[i - 1] == v2[i]);
        }
        lemma_represents_unique(r1, r2, m2);
        let w1 = v1.map_values(|s: ComponentSnapshot| s@);
        let w2 = v2.map_values(|s: ComponentSnapshot| s@);
        assert(r1.map_values(|s: ComponentSnapshot| s@) == r2.map_values(
            |s: ComponentSnapshot| s@,
        ));
        assert forall|i: int| 0 <= i < w1.len() implies w1[i] == w2[i] by {
            if i > 0 {
                assert(r1.map_values(|s: ComponentSnapshot| s@)[i - 1] == w1[i]);
                assert(r2.map_values(|s: ComponentSnapshot| s@)[i - 1] == w2[i]);
            }
        }
        assert(w1 =~= w2);
    }
}

/// Two baseline documents that differ only in members the reading ignores
/// give the same snapshots, in the same order.
pub proof fn lemma_same_reading_same_snapshots(
    d1: Json,
    d2: Json,
    r1: Seq<ComponentSnapshot>,
    r2: Seq<ComponentSnapshot>,
)
    requires
        same_baseline_reading(d1, d2),
        represents(
            r1,
            snapshot_map(baseline_components(d1).map_values(|j: Json| component_view(j))),
        ),
        represents(
            r2,
            snapshot_map(baseline_components(d2).map_values(|j: Json| component_view(j))),
        ),
    ensures
        r1.map_values(|s: ComponentSnapshot| s@) == r2.map_values(|s: ComponentSnapshot| s@),
{
    lemma_reading_ignores_other_members(d1, d2);
    lemma_represents_unique(
        r1,
        r2,
        snapshot_map(baseline_components(d1).map_values(|j: Json| component_view(j))),
    );
}

/// A key is in the map of a sequence of insertions exactly when some snapshot
/// has it, and its value is the last snapshot that has it.
pub proof fn lemma_snapshot_map_last(vs: Seq<SnapshotView>, k: Seq<char>)
    ensures
        snapshot_map(vs).contains_key(k) <==> exists|i: int| 0 <= i < vs.len() && (#[trigger] vs[i]).id == k,
        forall|i: int|
            0 <= i < vs.len() && (#[trigger] vs[i]).id == k && (forall|j: int|
                i < j < vs.len() ==> (#[trigger] vs[j]).id != k) ==> snapshot_map(vs)[k] == vs[i],
    decreases vs.len(),
{
    if vs.len() > 0 {
        let init = vs.drop_last();
        lemma_snapshot_map_last(init, k);
        assert forall|i: int| 0 <= i < init.len() implies init[i] == vs[i] by {}
        if exists|i: int| 0 <= i < vs.len() && (#[trigger] vs[i]).id == k {
            let i = choose|i: int| 0 <= i < vs.len() && (#[trigger] vs[i]).id == k;
            if i < vs.len() - 1 {
                assert(init[i].id == k);
            }
        }
        assert forall|i: int|
            0 <= i < vs.len() && (#[trigger] vs[i]).id == k && (forall|j: int|
                i < j < vs.len() ==> (#[trigger] vs[j]).id != k) implies snapshot_map(vs)[k]
            == vs[i] by {
            if i < vs.len() - 1 {
                assert(vs[vs.len() - 1].id != k);
                assert forall|j: int| i < j < init.len() implies (#[trigger] init[j]).id != k by {
                    assert(init[j] == vs[j]);
                }
                assert(init[i] == vs[i]);
            }
        }
    }
}

/// Component `j` is the last of `comps` whose rule id is `id`.
pub open spec fn last_with_id(comps: Seq<Component>, id: Seq<char>, j: int) -> bool {
    &&& 0 <= j < comps.len()
    &&& comps[j].rule_id@ == id
    &&& forall|k: int| j < k < comps.len() ==> (#[trigger] comps[k]).rule_id@ != id
}

proof fn last_index(vs: Seq<SnapshotView>, k: Seq<char>, from: int) -> (j: int)
    requires
        0 <= from < vs.len(),
        vs[from].id == k,
    ensures
        from <= j < vs.len(),
        vs[j].id == k,
        forall|l: int| j < l < vs.len() ==> (#[trigger] vs[l]).id != k,
    decreases vs.len() - from,
{
    if exists|l: int| from < l < vs.len() && (#[trigger] vs[l]).id == k {
        let l = choose|l: int| from < l < vs.len() && (#[trigger] vs[l]).id == k;
        last_index(vs, k, l)
    } else {
        from
    }
}

proof fn lemma_bom_snapshot_at(bom: CryptoBom, r: Seq<ComponentSnapshot>, i: int) -> (j: int)
    requires
        represents(r, snapshot_map(bom.components@.map_values(|c: Component| bom_view(c)))),
        0 <= i < r.len(),
    ensures
        last_with_id(bom.components@, r[i].id@, j),
        r[i].name@ == bom.components@[j].name@,
        r[i].priority == bom.components@[j].priority as i64,
        r[i].occurrence_count == bom.components@[j].occurrences@.len() as i64,
        r[i].file_count == bom.components@[j].file_count as i64,
{
    let comps = bom.components@;
    let vs = comps.map_values(|c: Component| bom_view(c));
    let m = snapshot_map(vs);
    let k = r[i].id@;
    lemma_snapshot_map_last(vs, k);
    assert(m.contains_key(k));
    let j0 = choose|j: int| 0 <= j < vs.len() && (#[trigger] vs[j]).id == k;
    let j = last_index(vs, k, j0);
    assert forall|l: int| j < l < comps.len() implies (#[trigger] comps[l]).rule_id@ != k by {
        assert(vs[l].id == comps[l].rule_id@);
    }
    assert(m[k] == vs[j]);
    j
}

/// Snapshot `s` is taken from component `j`, the last of `comps` with its id:
/// the same name and priority, as many occurrences as that component has (all
/// of them, whatever their needle, file, line or excerpt), and its file count.
pub open spec fn taken_from(comps: Seq<Component>, s: ComponentSnapshot, j: int) -> bool {
    &&& last_with_id(comps, s.id@, j)
    &&& s.name@ == comps[j].name@
    &&& s.priority == comps[j].priority as i64
    &&& s.occurrence_count == comps[j].occurrences@.len() as i64
    &&& s.file_count == comps[j].file_count as i64
}

/// Snapshot `s` is taken from the last of `comps` with its id.
pub open spec fn from_last_with_id(comps: Seq<Component>, s: ComponentSnapshot) -> bool {
    exists|j: int| #[trigger] taken_from(comps, s, j)
}

/// What the snapshots of a BOM hold: one snapshot per rule id of its
/// components, sorted by id; each is taken from the last component with that
/// id, with that component's name and priority, the number of its occurrences
/// (all of them, whatever their needle, file, line or excerpt) and its file count.
pub proof fn lemma_bom_snapshots(bom: CryptoBom, r: Seq<ComponentSnapshot>)
    requires
        represents(r, snapshot_map(bom.components@.map_values(|c: Component| bom_view(c)))),
    ensures
        forall|a: int, b: int| 0 <= a < b < r.len() ==> text_lt(r[a].id@, r[b].id@),
        forall|j: int|
            0 <= j < bom.components@.len() ==> exists|i: int|
                0 <= i < r.len() && (#[trigger] r[i]).id@ == (#[trigger] bom.components@[j]).rule_id@,
        forall|i: int| 0 <= i < r.len() ==> from_last_with_id(bom.components@, #[trigger] r[i]),
{
    let comps = bom.components@;
    let vs = comps.map_values(|c: Component| bom_view(c));
    assert forall|j: int| 0 <= j < comps.len() implies exists|i: int|
        0 <= i < r.len() && (#[trigger] r[i]).id@ == (#[trigger] comps[j]).rule_id@ by {
        lemma_snapshot_map_last(vs, comps[j].rule_id@);
        assert(vs[j].id == comps[j].rule_id@);
    }
    assert forall|i: int| 0 <= i < r.len() implies from_last_with_id(
        bom.components@,
        #[trigger] r[i],
    ) by {
        let j = lemma_bom_snapshot_at(bom, r, i);
        assert(taken_from(bom.components@, r[i], j));
    }
}

/// The string under `id` of component `c`, if it is an object with one.
pub open spec fn id_of(c: Json) -> Option<Seq<char>> {
    match c {
        Json::Object(o) => text_of(lookup(o.entries(), "id"@)),
        _ => None,
    }
}

/// Snapshot `s` is read from component `j` of `cs`, the last component whose
/// `id` is the snapshot's id: its name is the string under `name`, or the id
/// when there is none; its priority, occurrence count and file count are the
/// integers under `priority`, `occurrence_count` and `file_count`, or 0 where
/// there is none.
pub open spec fn read_from(cs: Seq<Json>, s: ComponentSnapshot, j: int) -> bool {
    &&& 0 <= j < cs.len()
    &&& id_of(cs[j]) == Some(s.id@)
    &&& forall|k: int| j < k < cs.len() ==> id_of(#[trigger] cs[k]) != Some(s.id@)
    &&& cs[j] matches Json::Object(o) && {
        &&& s.name@ == match lookup(o.entries(), "name"@) {
            Some(Json::String(t)) => t@,
            _ => s.id@,
        }
        &&& s.priority == match lookup(o.entries(), "priority"@) {
            Some(Json::Number(n)) => n,
            _ => 0,
        }
        &&& s.occurrence_count == match lookup(o.entries(), "occurrence_count"@) {
            Some(Json::Number(n)) => n,
            _ => 0,
        }
        &&& s.file_count == match lookup(o.entries(), "file_count"@) {
            Some(Json::Number(n)) => n,
            _ => 0,
        }
    }
}

/// Snapshot `s` is read from the last component of `cs` with its id.
pub open spec fn read_from_last(cs: Seq<Json>, s: ComponentSnapshot) -> bool {
    exists|j: int| #[trigger] read_from(cs, s, j)
}

proof fn lemma_all_components_readable(cs: Seq<Json>)
    requires
        first_component_error(cs) is None,
    ensures
        forall|i: int| 0 <= i < cs.len() ==> #[trigger] id_of(cs[i]) is Some,
    decreases cs.len(),
{
    if cs.len() > 0 {
        lemma_all_components_readable(cs.drop_first());
        assert forall|i: int| 0 <= i < cs.len() implies #[trigger] id_of(cs[i]) is Some by {
            if i > 0 {
                assert(cs[i] == cs.drop_first()[i - 1]);
            }
        }
    }
}

proof fn lemma_first_error_at(cs: Seq<Json>, i: int)
    requires
        0 <= i < cs.len(),
        forall|j: int| 0 <= j < i ==> #[trigger] id_of(cs[j]) is Some,
        id_of(cs[i]) is None,
    ensures
        first_component_error(cs) == Some(
            if cs[i] is Object {
                "component missing 'id'"@
            } else {
                "component is not an object"@
            },
        ),
    decreases i,
{
    if i > 0 {
        assert(id_of(cs[0]) is Some);
        assert forall|j: int| 0 <= j < i - 1 implies #[trigger] id_of(cs.drop_first()[j]) is Some by {
            assert(cs.drop_first()[j] == cs[j + 1]);
        }
        lemma_first_error_at(cs.drop_first(), i - 1);
    }
}

/// When reading a baseline document fails, and with which message: a root
/// that is not an object; a root without a `components` array; otherwise the
/// first component that is not an object, or that is an object without a
/// string `id`. Reading succeeds exactly when every component has a string `id`.
pub proof fn lemma_baseline_error_meaning(doc: Json)
    ensures
        !(doc is Object) ==> baseline_error(doc) == Some("baseline root is not an object"@),
        doc is Object && !(member_of(doc, "components"@) matches Some(Json::Array(_)))
            ==> baseline_error(doc) == Some("baseline has no 'components' array"@),
        (doc is Object && (member_of(doc, "components"@) matches Some(Json::Array(_)))) ==> (
        baseline_error(doc) is None <==> forall|i: int|
            0 <= i < baseline_components(doc).len() ==> #[trigger] id_of(
                baseline_components(doc)[i],
            ) is Some),
        forall|i: int|
            0 <= i < baseline_components(doc).len() && (forall|j: int|
                0 <= j < i ==> #[trigger] id_of(baseline_components(doc)[j]) is Some) && id_of(
                #[trigger] baseline_components(doc)[i],
            ) is None ==> baseline_error(doc) == Some(
                if baseline_components(doc)[i] is Object {
                    "component missing 'id'"@
                } else {
                    "component is not an object"@
                },
            ),
{
    let cs = baseline_components(doc);
    assert forall|i: int|
        0 <= i < cs.len() && (forall|j: int| 0 <= j < i ==> #[trigger] id_of(cs[j]) is Some)
            && id_of(#[trigger] cs[i]) is None implies baseline_error(doc) == Some(
        if cs[i] is Object {
            "component missing 'id'"@
        } else {
            "component is not an object"@
        },
    ) by {
        lemma_first_error_at(cs, i);
    }
    if doc is Object && (member_of(doc, "components"@) matches Some(Json::Array(_))) {
        if baseline_error(doc) is None {
            lemma_all_components_readable(cs);
        }
        if forall|i: int| 0 <= i < cs.len() ==> #[trigger] id_of(cs[i]) is Some {
            assert forall|i: int| 0 <= i < cs.len() implies component_error(#[trigger] cs[i]) is None by {
                assert(id_of(cs[i]) is Some);
            }
            lemma_no_component_error(cs);
        }
    }
}

/// What the snapshots read from a baseline document hold: one snapshot per id
/// of its components, sorted by id; each is read from the last component with
/// that id (see [`read_from`]).
pub proof fn lemma_json_snapshots(doc: Json, r: Seq<ComponentSnapshot>)
    requires
        baseline_error(doc) is None,
        represents(
            r,
            snapshot_map(baseline_components(doc).map_values(|j: Json| component_view(j))),
        ),
    ensures
        forall|a: int, b: int| 0 <= a < b < r.len() ==> text_lt(r[a].id@, r[b].id@),
        forall|j: int|
            0 <= j < baseline_components(doc).len() ==> exists|i: int|
                0 <= i < r.len() && Some((#[trigger] r[i]).id@) == id_of(
                    #[trigger] baseline_components(doc)[j],
                ),
        forall|i: int|
            0 <= i < r.len() ==> read_from_last(baseline_components(doc), #[trigger] r[i]),
{
    let cs = baseline_components(doc);
    let vs = cs.map_values(|j: Json| component_view(j));
    let m = snapshot_map(vs);
    assert(first_component_error(cs) is None);
    lemma_all_components_readable(cs);
    assert forall|j: int| 0 <= j < cs.len() implies Some(vs[j].id) == id_of(#[trigger] cs[j]) by {
        assert(id_of(cs[j]) is Some);
    }
    assert forall|j: int| 0 <= j < cs.len() implies exists|i: int|
        0 <= i < r.len() && Some((#[trigger] r[i]).id@) == id_of(#[trigger] cs[j]) by {
        assert(Some(vs[j].id) == id_of(cs[j]));
        lemma_snapshot_map_last(vs, vs[j].id);
    }
    assert forall|i: int| 0 <= i < r.len() implies read_from_last(cs, #[trigger] r[i]) by {
        let k = r[i].id@;
        lemma_snapshot_map_last(vs, k);
        assert(m.contains_key(k));
        let j0 = choose|j: int| 0 <= j < vs.len() && (#[trigger] vs[j]).id == k;
        let j = last_index(vs, k, j0);
        assert(m[k] == vs[j]);
        assert(Some(vs[j].id) == id_of(cs[j]));
        assert forall|l: int| j < l < cs.len() implies id_of(#[trigger] cs[l]) != Some(k) by {
            assert(Some(vs[l].id) == id_of(cs[l]));
        }
        assert(read_from(cs, r[i], j));
    }
}

/// The snapshot that a BOM component gives.
pub open spec fn bom_view(c: Component) -> SnapshotView {
    SnapshotView {
        id: c.rule_id@,
        name: c.name@,
        priority: c.priority as i64,
        occurrence_count: c.occurrences@.len() as i64,
        file_count: c.file_count as i64,
    }
}

/// Build snapshots directly from an in-memory CryptoBOM.
pub fn snapshots_from_bom(bom: &CryptoBom) -> (r: Vec<ComponentSnapshot>)
    ensures
        represents(r@, snapshot_map(bom.components@.map_values(|c: Component| bom_view(c)))),
        forall|a: int, b: int| 0 <= a < b < r@.len() ==> text_lt(r@[a].id@, r@[b].id@),
        forall|j: int|
            0 <= j < bom.components@.len() ==> exists|i: int|
                0 <= i < r@.len() && (#[trigger] r@[i]).id@ == (#[trigger] bom.components@[j]).rule_id@,
        forall|i: int| 0 <= i < r@.len() ==> from_last_with_id(bom.components@, #[trigger] r@[i]),
{
    let ghost views = bom.components@.map_values(|c: Component| bom_view(c));
    let mut map: Vec<ComponentSnapshot> = Vec::new();
    let n: usize = bom.components.len();
    let mut i: usize = 0;
    assert(views.take(0) =~= Seq::<SnapshotView>::empty());
    while i < n
        invariant
            n == bom.components@.len(),
            views == bom.components@.map_values(|c: Component| bom_view(c)),
            i <= n,
            represents(map@, snapshot_map(views.take(i as int))),
        decreases n - i,
    {
        let c = &bom.components[i];
        let s = ComponentSnapshot {
            id: c.rule_id.clone(),
            name: c.name.clone(),
            priority: c.priority as i64,
            occurrence_count: c.occurrences.len() as i64,
            file_count: c.file_count as i64,
        };
        assert(s@ == views[i as int]);
        assert(views.take(i + 1).drop_last() =~= views.take(i as int));
        insert_snapshot(&mut map, s, Ghost(snapshot_map(views.take(i as int))));
        i = i + 1;
    }
    assert(views.take(n as int) =~= views);
    proof {
        lemma_bom_snapshots(*bom, map@);
    }
    map
}

} // verus!
