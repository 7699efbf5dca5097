use vstd::prelude::*;
use vstd::string::StringExecFns;
use crate::strutil::ci_eq;

verus! {

// ---------------------------------------------------------------------------
// The model of the hierarchical typed key/value store.
//
// A store is a flat table of keys; a key is named by its full segment path
// and carries its named values as raw tagged payloads, exactly as the
// native store hands them out. All name matching is ASCII-case-insensitive,
// as the native store's is.
// ---------------------------------------------------------------------------

/// One named value as the store holds it: a type tag and its raw bytes.
/// An absent name denotes the key's unnamed default value.
pub struct RegValueEntry {
    pub name: Option<String>,
    pub type_tag: u32,
    pub data: Vec<u8>,
}

/// One key: its full path, root first, and its values.
pub struct RegKeyEntry {
    pub segments: Vec<String>,
    pub values: Vec<RegValueEntry>,
}

/// The store: the five well-known roots followed by every key created
/// beneath them.
pub struct RegStore {
    pub keys: Vec<RegKeyEntry>,
}

pub struct ValueEntryModel {
    pub name: Option<Seq<char>>,
    pub tag: u32,
    pub data: Seq<u8>,
}

pub struct KeyEntryModel {
    pub segments: Seq<Seq<char>>,
    pub values: Seq<ValueEntryModel>,
}

impl View for RegValueEntry {
    type V = ValueEntryModel;

    open spec fn view(&self) -> ValueEntryModel {
        ValueEntryModel {
            name: match self.name {
                Some(n) => Some(n@),
                None => None,
            },
            tag: self.type_tag,
            data: self.data@,
        }
    }
}

/// The model of a value list.
pub open spec fn values_view(v: Seq<RegValueEntry>) -> Seq<ValueEntryModel> {
    Seq::new(v.len(), |i: int| v[i]@)
}

impl View for RegKeyEntry {
    type V = KeyEntryModel;

    open spec fn view(&self) -> KeyEntryModel {
        KeyEntryModel { segments: self.segments.deep_view(), values: values_view(self.values@) }
    }
}

impl View for RegStore {
    type V = Seq<KeyEntryModel>;

    open spec fn view(&self) -> Seq<KeyEntryModel> {
        Seq::new(self.keys@.len(), |i: int| self.keys@[i]@)
    }
}

// ---------------------------------------------------------------------------
// Name matching.
// ---------------------------------------------------------------------------

/// Case-insensitive equality of two segment paths.
pub open spec fn segs_ci_eq(a: Seq<Seq<char>>, b: Seq<Seq<char>>) -> bool {
    a.len() == b.len() && forall|i: int| 0 <= i < a.len() ==> ci_eq(a[i], b[i])
}

/// Case-insensitive equality of two optional value names; only the default
/// value matches the default value.
pub open spec fn names_match(a: Option<Seq<char>>, b: Option<Seq<char>>) -> bool {
    match (a, b) {
        (Some(x), Some(y)) => ci_eq(x, y),
        (None, None) => true,
        _ => false,
    }
}

/// Whether a key with the given path is present.
pub open spec fn has_key(s: Seq<KeyEntryModel>, segs: Seq<Seq<char>>) -> bool {
    exists|i: int| 0 <= i < s.len() && segs_ci_eq(s[i].segments, segs)
}

/// The five root names, in handle order.
pub open spec fn spec_root_name(i: int) -> Seq<char> {
    if i == 0 {
        "HKEY_LOCAL_MACHINE"@
    } else if i == 1 {
        "HKEY_CURRENT_CONFIG"@
    } else if i == 2 {
        "HKEY_CLASSES_ROOT"@
    } else if i == 3 {
        "HKEY_CURRENT_USER"@
    } else {
        "HKEY_USERS"@
    }
}

// ---------------------------------------------------------------------------
// Well-formedness.
// ---------------------------------------------------------------------------

/// A segment usable as a key name: non-empty, with no path separator.
pub open spec fn seg_ok(s: Seq<char>) -> bool {
    s.len() > 0 && forall|i: int| 0 <= i < s.len() ==> s[i] != '\\'
}

/// The first match for a value name inside a key's value list, or the
/// list's length when the name is absent.
pub open spec fn find_value_at(vs: Seq<ValueEntryModel>, name: Option<Seq<char>>) -> int
    decreases vs.len(),
{
    if vs.len() == 0 {
        0
    } else if names_match(vs[0].name, name) {
        0
    } else {
        1 + find_value_at(vs.skip(1), name)
    }
}

/// The value entry a read of `name` sees, if any.
pub open spec fn find_value(vs: Seq<ValueEntryModel>, name: Option<Seq<char>>) -> Option<
    ValueEntryModel,
> {
    if find_value_at(vs, name) < vs.len() {
        Some(vs[find_value_at(vs, name)])
    } else {
        None
    }
}

/// The store invariant.
///
/// The five roots sit at the first five handles and are never removed;
/// every other key is nested (two or more segments); key paths are distinct
/// up to case; every non-root key's parent is present; segments are usable
/// names; value names within one key are distinct up to case.
pub open spec fn store_wf(s: Seq<KeyEntryModel>) -> bool {
    &&& s.len() >= 5
    &&& forall|i: int|
        0 <= i < 5 ==> (#[trigger] s[i].segments) =~= seq![spec_root_name(i)]
    &&& forall|i: int| 5 <= i < s.len() ==> (#[trigger] s[i].segments).len() >= 2
    &&& forall|i: int, j: int|
        0 <= i < s.len() && 0 <= j < s.len() && i != j ==> !segs_ci_eq(
            (#[trigger] s[i]).segments,
            (#[trigger] s[j]).segments,
        )
    &&& forall|i: int|
        0 <= i < s.len() && (#[trigger] s[i]).segments.len() > 1 ==> has_key(
            s,
            s[i].segments.drop_last(),
        )
    &&& forall|i: int, k: int|
        0 <= i < s.len() && 0 <= k < (#[trigger] s[i]).segments.len() ==> seg_ok(
            #[trigger] s[i].segments[k],
        )
    &&& forall|i: int, v: int, w: int|
        0 <= i < s.len() && 0 <= v < (#[trigger] s[i]).values.len() && 0 <= w
            < s[i].values.len() && v != w ==> !names_match(
            (#[trigger] s[i].values[v]).name,
            (#[trigger] s[i].values[w]).name,
        )
}

impl RegStore {
    pub open spec fn wf(&self) -> bool {
        store_wf(self@)
    }

    /// A fresh store holding exactly the five well-known roots, without
    /// values and without children.
    pub fn new() -> (r: RegStore)
        ensures
            r.wf(),
            r@.len() == 5,
            forall|i: int| 0 <= i < 5 ==> (#[trigger] r@[i]).values.len() == 0,
    {
        let mut keys: Vec<RegKeyEntry> = Vec::new();
        let mut lm: Vec<String> = Vec::new();
        lm.push(String::from_str("HKEY_LOCAL_MACHINE"));
        keys.push(RegKeyEntry { segments: lm, values: Vec::new() });
        let mut cc: Vec<String> = Vec::new();
        cc.push(String::from_str("HKEY_CURRENT_CONFIG"));
        keys.push(RegKeyEntry { segments: cc, values: Vec::new() });
        let mut cr: Vec<String> = Vec::new();
        cr.push(String::from_str("HKEY_CLASSES_ROOT"));
        keys.push(RegKeyEntry { segments: cr, values: Vec::new() });
        let mut cu: Vec<String> = Vec::new();
        cu.push(String::from_str("HKEY_CURRENT_USER"));
        keys.push(RegKeyEntry { segments: cu, values: Vec::new() });
        let mut us: Vec<String> = Vec::new();
        us.push(String::from_str("HKEY_USERS"));
        keys.push(RegKeyEntry { segments: us, values: Vec::new() });
        let r = RegStore { keys };
        proof {
            assert forall|i: int| 0 <= i < 5 implies (#[trigger] r@[i].segments) =~= seq![
                spec_root_name(i),
            ] by {
                lemma_root_names_distinct();
            }
            assert forall|i: int, j: int|
                0 <= i < r@.len() && 0 <= j < r@.len() && i != j implies !segs_ci_eq(
                (#[trigger] r@[i]).segments,
                (#[trigger] r@[j]).segments,
            ) by {
                lemma_root_names_distinct();
                assert(r@[i].segments =~= seq![spec_root_name(i)]);
                assert(r@[j].segments =~= seq![spec_root_name(j)]);
                assert(!ci_eq(spec_root_name(i), spec_root_name(j)));
                if segs_ci_eq(r@[i].segments, r@[j].segments) {
                    assert(ci_eq(r@[i].segments[0], r@[j].segments[0]));
                    assert(false);
                }
            }
            assert forall|i: int, k: int|
                0 <= i < r@.len() && 0 <= k < (#[trigger] r@[i]).segments.len() implies seg_ok(
                #[trigger] r@[i].segments[k],
            ) by {
                lemma_root_names_distinct();
                assert(r@[i].segments =~= seq![spec_root_name(i)]);
            }
        }
        r
    }
}

// ---------------------------------------------------------------------------
// Facts about case-insensitive matching.
// ---------------------------------------------------------------------------

pub proof fn lemma_ci_eq_sym(a: Seq<char>, b: Seq<char>)
    ensures
        ci_eq(a, b) == ci_eq(b, a),
{
    if ci_eq(a, b) {
        assert forall|i: int| 0 <= i < b.len() implies crate::strutil::ci_eq_char(b[i], a[i]) by {
            assert(crate::strutil::ci_eq_char(a[i], b[i]));
        }
    }
    if ci_eq(b, a) {
        assert forall|i: int| 0 <= i < a.len() implies crate::strutil::ci_eq_char(a[i], b[i]) by {
            assert(crate::strutil::ci_eq_char(b[i], a[i]));
        }
    }
}

pub proof fn lemma_ci_eq_trans(a: Seq<char>, b: Seq<char>, c: Seq<char>)
    requires
        ci_eq(a, b),
        ci_eq(b, c),
    ensures
        ci_eq(a, c),
{
    assert forall|i: int| 0 <= i < a.len() implies crate::strutil::ci_eq_char(a[i], c[i]) by {
        assert(crate::strutil::ci_eq_char(a[i], b[i]));
        assert(crate::strutil::ci_eq_char(b[i], c[i]));
    }
}

pub proof fn lemma_segs_ci_sym(a: Seq<Seq<char>>, b: Seq<Seq<char>>)
    ensures
        segs_ci_eq(a, b) == segs_ci_eq(b, a),
{
    if segs_ci_eq(a, b) {
        assert forall|i: int| 0 <= i < b.len() implies ci_eq(b[i], a[i]) by {
            assert(ci_eq(a[i], b[i]));
            lemma_ci_eq_sym(a[i], b[i]);
        }
    }
    if segs_ci_eq(b, a) {
        assert forall|i: int| 0 <= i < a.len() implies ci_eq(a[i], b[i]) by {
            assert(ci_eq(b[i], a[i]));
            lemma_ci_eq_sym(b[i], a[i]);
        }
    }
}

pub proof fn lemma_segs_ci_trans(a: Seq<Seq<char>>, b: Seq<Seq<char>>, c: Seq<Seq<char>>)
    requires
        segs_ci_eq(a, b),
        segs_ci_eq(b, c),
    ensures
        segs_ci_eq(a, c),
{
    assert forall|i: int| 0 <= i < a.len() implies ci_eq(a[i], c[i]) by {
        assert(ci_eq(a[i], b[i]));
        assert(ci_eq(b[i], c[i]));
        lemma_ci_eq_trans(a[i], b[i], c[i]);
    }
}

pub proof fn lemma_names_match_sym(a: Option<Seq<char>>, b: Option<Seq<char>>)
    ensures
        names_match(a, b) == names_match(b, a),
{
    match (a, b) {
        (Some(x), Some(y)) => lemma_ci_eq_sym(x, y),
        _ => {
        },
    }
}

pub proof fn lemma_names_match_trans(a: Option<Seq<char>>, b: Option<Seq<char>>, c: Option<
    Seq<char>,
>)
    requires
        names_match(a, b),
        names_match(b, c),
    ensures
        names_match(a, c),
{
    match (a, b) {
        (Some(x), Some(y)) => {
            match c {
                Some(z) => lemma_ci_eq_trans(x, y, z),
                None => {
                },
            }
        },
        _ => {
        },
    }
}

/// A usable name stays usable across case folding.
pub proof fn lemma_ci_seg_ok(a: Seq<char>, b: Seq<char>)
    requires
        seg_ok(a),
        ci_eq(a, b),
    ensures
        seg_ok(b),
{
    assert forall|i: int| 0 <= i < b.len() implies b[i] != '\\' by {
        assert(crate::strutil::ci_eq_char(a[i], b[i]));
        if b[i] == '\\' {
            assert(crate::strutil::lower_code(b[i]) == 92);
            assert(a[i] != '\\');
            if 'A' <= a[i] && a[i] <= 'Z' {
                assert(crate::strutil::lower_code(a[i]) >= 97);
            } else {
                assert(a[i] as int == 92);
                assert(a[i] == '\\');
            }
        }
    }
}

// ---------------------------------------------------------------------------
// Facts about value lookup.
// ---------------------------------------------------------------------------

pub proof fn lemma_find_value_at(vs: Seq<ValueEntryModel>, n: Option<Seq<char>>)
    ensures
        0 <= find_value_at(vs, n) <= vs.len(),
        forall|j: int| 0 <= j < find_value_at(vs, n) ==> !names_match(vs[j].name, n),
        find_value_at(vs, n) < vs.len() ==> names_match(vs[find_value_at(vs, n)].name, n),
    decreases vs.len(),
{
    if vs.len() > 0 && !names_match(vs[0].name, n) {
        lemma_find_value_at(vs.skip(1), n);
        assert(forall|j: int| 1 <= j < find_value_at(vs, n) ==> vs[j] == vs.skip(1)[j - 1]);
    }
}

pub proof fn lemma_find_value_at_is(vs: Seq<ValueEntryModel>, n: Option<Seq<char>>, k: int)
    requires
        0 <= k <= vs.len(),
        forall|j: int| 0 <= j < k ==> !names_match(vs[j].name, n),
        k < vs.len() ==> names_match(vs[k].name, n),
    ensures
        find_value_at(vs, n) == k,
    decreases vs.len(),
{
    if vs.len() == 0 {
    } else if names_match(vs[0].name, n) {
        assert(k == 0);
    } else {
        assert(k >= 1);
        assert(forall|j: int| 0 <= j < k - 1 ==> vs.skip(1)[j] == vs[j + 1]);
        assert(k - 1 < vs.skip(1).len() ==> vs.skip(1)[k - 1] == vs[k]);
        lemma_find_value_at_is(vs.skip(1), n, k - 1);
    }
}

/// Two value lists that match a name at the same places, with the matching
/// entries equal, are read the same under that name.
pub proof fn lemma_find_value_same(
    vs: Seq<ValueEntryModel>,
    ws: Seq<ValueEntryModel>,
    n: Option<Seq<char>>,
)
    requires
        vs.len() == ws.len(),
        forall|i: int|
            0 <= i < vs.len() ==> names_match((#[trigger] vs[i]).name, n) == names_match(
                (#[trigger] ws[i]).name,
                n,
            ),
        forall|i: int|
            0 <= i < vs.len() && names_match((#[trigger] vs[i]).name, n) ==> vs[i] == ws[i],
    ensures
        find_value(vs, n) == find_value(ws, n),
{
    lemma_find_value_at(vs, n);
    lemma_find_value_at(ws, n);
    assert forall|j: int| 0 <= j < find_value_at(vs, n) implies !names_match(ws[j].name, n) by {
        assert(!names_match(vs[j].name, n));
    }
    if find_value_at(vs, n) < vs.len() {
        assert(names_match(vs[find_value_at(vs, n)].name, n));
    }
    lemma_find_value_at_is(ws, n, find_value_at(vs, n));
}

/// The five root names are pairwise distinct up to case, non-empty, and
/// free of the separator.
pub proof fn lemma_root_names_distinct()
    ensures
        forall|i: int, j: int|
            0 <= i < 5 && 0 <= j < 5 && i != j ==> !ci_eq(
                #[trigger] spec_root_name(i),
                #[trigger] spec_root_name(j),
            ),
        forall|i: int| 0 <= i < 5 ==> seg_ok(#[trigger] spec_root_name(i)),
{
    reveal_strlit("HKEY_LOCAL_MACHINE");
    reveal_strlit("HKEY_CURRENT_CONFIG");
    reveal_strlit("HKEY_CLASSES_ROOT");
    reveal_strlit("HKEY_CURRENT_USER");
    reveal_strlit("HKEY_USERS");
    assert forall|i: int, j: int|
        0 <= i < 5 && 0 <= j < 5 && i != j implies !ci_eq(
        #[trigger] spec_root_name(i),
        #[trigger] spec_root_name(j),
    ) by {
        let a = spec_root_name(i);
        let b = spec_root_name(j);
        if a.len() == b.len() {
            assert(i == 2 || i == 3);
            assert(j == 2 || j == 3);
            assert(!crate::strutil::ci_eq_char(a[6], b[6]));
        }
    }
    assert forall|i: int| 0 <= i < 5 implies seg_ok(#[trigger] spec_root_name(i)) by {
        let a = spec_root_name(i);
        assert forall|k: int| 0 <= k < a.len() implies a[k] != '\\' by {
            assert(a[k] != '\\');
        }
    }
}

/// Appending a nested, uniquely named, well-named, childless key with its
/// parent present keeps the store well-formed.
pub proof fn lemma_store_push_wf(s: Seq<KeyEntryModel>, e: KeyEntryModel)
    requires
        store_wf(s),
        e.segments.len() >= 2,
        forall|k: int| 0 <= k < e.segments.len() ==> seg_ok(#[trigger] e.segments[k]),
        forall|i: int| 0 <= i < s.len() ==> !segs_ci_eq((#[trigger] s[i]).segments, e.segments),
        has_key(s, e.segments.drop_last()),
        e.values.len() == 0,
    ensures
        store_wf(s.push(e)),
{
    let s2 = s.push(e);
    assert(forall|i: int| 0 <= i < s.len() ==> s2[i] == s[i]);
    assert(s2[s.len() as int] == e);
    assert forall|i: int, j: int|
        0 <= i < s2.len() && 0 <= j < s2.len() && i != j implies !segs_ci_eq(
        (#[trigger] s2[i]).segments,
        (#[trigger] s2[j]).segments,
    ) by {
        if i < s.len() && j < s.len() {
        } else if j == s.len() {
            assert(!segs_ci_eq(s[i].segments, e.segments));
        } else {
            assert(!segs_ci_eq(s[j].segments, e.segments));
            lemma_segs_ci_sym(e.segments, s[j].segments);
        }
    }
    assert forall|i: int|
        0 <= i < s2.len() && (#[trigger] s2[i]).segments.len() > 1 implies has_key(
        s2,
        s2[i].segments.drop_last(),
    ) by {
        if i < s.len() {
            assert(has_key(s, s[i].segments.drop_last()));
            let w = choose|w: int|
                0 <= w < s.len() && segs_ci_eq(s[w].segments, s[i].segments.drop_last());
            assert(segs_ci_eq(s2[w].segments, s2[i].segments.drop_last()));
        } else {
            let w = choose|w: int|
                0 <= w < s.len() && segs_ci_eq(s[w].segments, e.segments.drop_last());
            assert(segs_ci_eq(s2[w].segments, s2[i].segments.drop_last()));
        }
    }
}

/// Matching a name against itself always succeeds.
pub proof fn lemma_names_match_refl(n: Option<Seq<char>>)
    ensures
        names_match(n, n),
{
    match n {
        Some(x) => {
            assert(ci_eq(x, x));
        },
        None => {
        },
    }
}

/// A store whose keys' paths are untouched, with one key's values changed
/// to a list that still has distinct names, stays well-formed.
proof fn lemma_values_only_change_wf(s0: Seq<KeyEntryModel>, s1: Seq<KeyEntryModel>, h: int)
    requires
        store_wf(s0),
        0 <= h < s0.len(),
        s1.len() == s0.len(),
        forall|i: int| 0 <= i < s0.len() && i != h ==> s1[i] == s0[i],
        s1[h].segments == s0[h].segments,
        forall|v: int, w: int|
            0 <= v < s1[h].values.len() && 0 <= w < s1[h].values.len() && v != w ==> !names_match(
                (#[trigger] s1[h].values[v]).name,
                (#[trigger] s1[h].values[w]).name,
            ),
    ensures
        store_wf(s1),
{
    assert(forall|i: int| 0 <= i < s1.len() ==> (#[trigger] s1[i]).segments == s0[i].segments);
    assert forall|i: int| 0 <= i < 5 implies (#[trigger] s1[i].segments) =~= seq![
        spec_root_name(i),
    ] by {
        assert(s0[i].segments =~= seq![spec_root_name(i)]);
    }
    assert forall|i: int|
        0 <= i < s1.len() && (#[trigger] s1[i]).segments.len() > 1 implies has_key(
        s1,
        s1[i].segments.drop_last(),
    ) by {
        assert(has_key(s0, s0[i].segments.drop_last()));
        let w = choose|w: int|
            0 <= w < s0.len() && segs_ci_eq(s0[w].segments, s0[i].segments.drop_last());
        assert(segs_ci_eq(s1[w].segments, s1[i].segments.drop_last()));
    }
    assert forall|i: int, k: int|
        0 <= i < s1.len() && 0 <= k < (#[trigger] s1[i]).segments.len() implies seg_ok(
        #[trigger] s1[i].segments[k],
    ) by {
        assert(seg_ok(s0[i].segments[k]));
    }
    assert forall|i: int, v: int, w: int|
        0 <= i < s1.len() && 0 <= v < (#[trigger] s1[i]).values.len() && 0 <= w
            < s1[i].values.len() && v != w implies !names_match(
        (#[trigger] s1[i].values[v]).name,
        (#[trigger] s1[i].values[w]).name,
    ) by {
        if i != h {
            assert(!names_match(s0[i].values[v].name, s0[i].values[w].name));
        }
    }
}

/// Overwriting the value that answers to `n` in place: the read of `n` now
/// sees the new entry, every other name reads as before, and the store
/// stays well-formed.
pub proof fn lemma_set_value_update(
    s0: Seq<KeyEntryModel>,
    s1: Seq<KeyEntryModel>,
    h: int,
    idx: int,
    e: ValueEntryModel,
    n: Option<Seq<char>>,
)
    requires
        store_wf(s0),
        0 <= h < s0.len(),
        s1.len() == s0.len(),
        forall|i: int| 0 <= i < s0.len() && i != h ==> s1[i] == s0[i],
        s1[h].segments == s0[h].segments,
        0 <= idx < s0[h].values.len(),
        s1[h].values == s0[h].values.update(idx, e),
        e.name == n,
        names_match(s0[h].values[idx].name, n),
        forall|j: int| 0 <= j < idx ==> !names_match((#[trigger] s0[h].values[j]).name, n),
    ensures
        store_wf(s1),
        find_value(s1[h].values, n) == Some(e),
        forall|n2: Option<Seq<char>>|
            !names_match(n2, n) ==> find_value(s1[h].values, n2) == find_value(s0[h].values, n2),
{
    let vs0 = s0[h].values;
    let vs1 = s1[h].values;
    let o = vs0[idx].name;
    lemma_names_match_refl(n);
    assert(vs1[idx] == e);
    assert forall|j: int| 0 <= j < idx implies !names_match((#[trigger] vs1[j]).name, n) by {
        assert(vs1[j] == vs0[j]);
        assert(!names_match(vs0[j].name, n));
    }
    lemma_find_value_at_is(vs1, n, idx);
    assert forall|n2: Option<Seq<char>>| !names_match(n2, n) implies find_value(vs1, n2)
        == find_value(vs0, n2) by {
        lemma_names_match_sym(n2, n);
        assert forall|i: int|
            0 <= i < vs0.len() implies names_match((#[trigger] vs0[i]).name, n2) == names_match(
            (#[trigger] vs1[i]).name,
            n2,
        ) && (names_match(vs0[i].name, n2) ==> vs0[i] == vs1[i]) by {
            if i == idx {
                if names_match(vs0[idx].name, n2) {
                    lemma_names_match_sym(o, n2);
                    lemma_names_match_trans(n2, o, n);
                    assert(false);
                }
                if names_match(vs1[idx].name, n2) {
                    assert(names_match(n, n2));
                    assert(false);
                }
            }
        }
        lemma_find_value_same(vs0, vs1, n2);
    }
    assert forall|v: int, w: int|
        0 <= v < vs1.len() && 0 <= w < vs1.len() && v != w implies !names_match(
        (#[trigger] vs1[v]).name,
        (#[trigger] vs1[w]).name,
    ) by {
        assert(!names_match(vs0[v].name, vs0[w].name));
        if v == idx {
            if names_match(vs1[v].name, vs1[w].name) {
                lemma_names_match_trans(o, n, vs0[w].name);
                assert(false);
            }
        } else if w == idx {
            if names_match(vs1[v].name, vs1[w].name) {
                lemma_names_match_sym(o, n);
                lemma_names_match_trans(vs0[v].name, n, o);
                assert(false);
            }
        }
    }
    lemma_values_only_change_wf(s0, s1, h);
}

/// Appending a value under a name no entry answers to: the read of `n` now
/// sees the new entry, every other name reads as before, and the store
/// stays well-formed.
pub proof fn lemma_set_value_append(
    s0: Seq<KeyEntryModel>,
    s1: Seq<KeyEntryModel>,
    h: int,
    e: ValueEntryModel,
    n: Option<Seq<char>>,
)
    requires
        store_wf(s0),
        0 <= h < s0.len(),
        s1.len() == s0.len(),
        forall|i: int| 0 <= i < s0.len() && i != h ==> s1[i] == s0[i],
        s1[h].segments == s0[h].segments,
        s1[h].values == s0[h].values.push(e),
        e.name == n,
        forall|j: int|
            0 <= j < s0[h].values.len() ==> !names_match((#[trigger] s0[h].values[j]).name, n),
    ensures
        store_wf(s1),
        find_value(s1[h].values, n) == Some(e),
        forall|n2: Option<Seq<char>>|
            !names_match(n2, n) ==> find_value(s1[h].values, n2) == find_value(s0[h].values, n2),
{
    let vs0 = s0[h].values;
    let vs1 = s1[h].values;
    let l = vs0.len() as int;
    lemma_names_match_refl(n);
    assert(vs1[l] == e);
    assert forall|j: int| 0 <= j < l implies !names_match((#[trigger] vs1[j]).name, n) by {
        assert(vs1[j] == vs0[j]);
        assert(!names_match(vs0[j].name, n));
    }
    lemma_find_value_at_is(vs1, n, l);
    assert forall|n2: Option<Seq<char>>| !names_match(n2, n) implies find_value(vs1, n2)
        == find_value(vs0, n2) by {
        lemma_names_match_sym(n2, n);
        lemma_find_value_at(vs0, n2);
        let k = find_value_at(vs0, n2);
        assert forall|j: int| 0 <= j < k implies !names_match((#[trigger] vs1[j]).name, n2) by {
            assert(vs1[j] == vs0[j]);
        }
        if k < l {
            assert(vs1[k] == vs0[k]);
            lemma_find_value_at_is(vs1, n2, k);
        } else {
            assert(!names_match(vs1[l].name, n2)) by {
                if names_match(n, n2) {
                    lemma_names_match_sym(n, n2);
                    assert(false);
                }
            }
            lemma_find_value_at_is(vs1, n2, l + 1);
        }
    }
    assert forall|v: int, w: int|
        0 <= v < vs1.len() && 0 <= w < vs1.len() && v != w implies !names_match(
        (#[trigger] vs1[v]).name,
        (#[trigger] vs1[w]).name,
    ) by {
        if v < l && w < l {
            assert(!names_match(vs0[v].name, vs0[w].name));
        } else if v == l {
            assert(!names_match(vs0[w].name, n));
            lemma_names_match_sym(vs0[w].name, n);
        } else {
            assert(!names_match(vs0[v].name, n));
        }
    }
    lemma_values_only_change_wf(s0, s1, h);
}

// ---------------------------------------------------------------------------
// Children of a key.
// ---------------------------------------------------------------------------

/// Whether an entry is an immediate child of the key whose path is `parent`.
pub open spec fn is_child_of(e: KeyEntryModel, parent: Seq<Seq<char>>) -> bool {
    e.segments.len() == parent.len() + 1 && segs_ci_eq(
        e.segments.take(parent.len() as int),
        parent,
    )
}

/// How many immediate children the store holds, in store order.
pub open spec fn child_count(s: Seq<KeyEntryModel>, parent: Seq<Seq<char>>) -> int
    decreases s.len(),
{
    if s.len() == 0 {
        0
    } else {
        child_count(s.drop_last(), parent) + if is_child_of(s.last(), parent) {
            1int
        } else {
            0int
        }
    }
}

/// The names of the immediate children, in store order: what indexed
/// enumeration walks.
pub open spec fn children_names(s: Seq<KeyEntryModel>, parent: Seq<Seq<char>>) -> Seq<Seq<char>>
    decreases s.len(),
{
    if s.len() == 0 {
        Seq::empty()
    } else {
        children_names(s.drop_last(), parent) + if is_child_of(s.last(), parent) {
            seq![s.last().segments.last()]
        } else {
            Seq::empty()
        }
    }
}

pub proof fn lemma_children_names_concat(a: Seq<KeyEntryModel>, b: Seq<KeyEntryModel>, parent: Seq<
    Seq<char>,
>)
    ensures
        children_names(a + b, parent) == children_names(a, parent) + children_names(b, parent),
        child_count(a + b, parent) == child_count(a, parent) + child_count(b, parent),
    decreases b.len(),
{
    if b.len() == 0 {
        assert(a + b =~= a);
        assert(children_names(a, parent) + children_names(b, parent) =~= children_names(a, parent));
    } else {
        lemma_children_names_concat(a, b.drop_last(), parent);
        assert((a + b).drop_last() =~= a + b.drop_last());
        assert((a + b).last() == b.last());
        assert((children_names(a, parent) + children_names(b.drop_last(), parent)) + (if is_child_of(
            b.last(),
            parent,
        ) {
            seq![b.last().segments.last()]
        } else {
            Seq::<Seq<char>>::empty()
        }) =~= children_names(a, parent) + (children_names(b.drop_last(), parent) + (if is_child_of(
            b.last(),
            parent,
        ) {
            seq![b.last().segments.last()]
        } else {
            Seq::<Seq<char>>::empty()
        })));
    }
}

/// Presence does not depend on the spelling of the path asked for.
pub proof fn lemma_has_key_ci(s: Seq<KeyEntryModel>, a: Seq<Seq<char>>, b: Seq<Seq<char>>)
    requires
        segs_ci_eq(a, b),
    ensures
        has_key(s, a) == has_key(s, b),
{
    if has_key(s, a) {
        let w = choose|w: int| 0 <= w < s.len() && segs_ci_eq((#[trigger] s[w]).segments, a);
        lemma_segs_ci_trans(s[w].segments, a, b);
        assert(segs_ci_eq(s[w].segments, b));
    }
    if has_key(s, b) {
        let w = choose|w: int| 0 <= w < s.len() && segs_ci_eq((#[trigger] s[w]).segments, b);
        lemma_segs_ci_sym(a, b);
        lemma_segs_ci_trans(s[w].segments, b, a);
        assert(segs_ci_eq(s[w].segments, a));
    }
}

/// In a well-formed store, every ancestor of a present key is present.
pub proof fn lemma_has_key_prefix(s: Seq<KeyEntryModel>, segs: Seq<Seq<char>>, m: int)
    requires
        store_wf(s),
        has_key(s, segs),
        1 <= m <= segs.len(),
    ensures
        has_key(s, segs.take(m)),
    decreases segs.len() - m,
{
    if m == segs.len() {
        assert(segs.take(m) =~= segs);
    } else {
        lemma_has_key_prefix(s, segs, m + 1);
        let w = choose|w: int|
            0 <= w < s.len() && segs_ci_eq((#[trigger] s[w]).segments, segs.take(m + 1));
        assert(s[w].segments.len() == m + 1);
        assert(has_key(s, s[w].segments.drop_last()));
        assert(segs_ci_eq(s[w].segments.drop_last(), segs.take(m))) by {
            assert forall|t: int| 0 <= t < m implies ci_eq(
                s[w].segments.drop_last()[t],
                segs.take(m)[t],
            ) by {
                assert(s[w].segments.drop_last()[t] == s[w].segments[t]);
                assert(segs.take(m)[t] == segs.take(m + 1)[t]);
                assert(ci_eq(s[w].segments[t], segs.take(m + 1)[t]));
            }
        }
        lemma_has_key_ci(s, s[w].segments.drop_last(), segs.take(m));
    }
}

/// The child entries themselves, in store order: position `k` holds the
/// key that enumeration step `k` names.
pub open spec fn children_of(s: Seq<KeyEntryModel>, parent: Seq<Seq<char>>) -> Seq<KeyEntryModel>
    decreases s.len(),
{
    if s.len() == 0 {
        Seq::empty()
    } else {
        children_of(s.drop_last(), parent) + if is_child_of(s.last(), parent) {
            seq![s.last()]
        } else {
            Seq::empty()
        }
    }
}

pub proof fn lemma_children_of_props(s: Seq<KeyEntryModel>, parent: Seq<Seq<char>>)
    ensures
        children_of(s, parent).len() == children_names(s, parent).len(),
        children_of(s, parent).len() <= s.len(),
        forall|k: int|
            #![trigger children_of(s, parent)[k]]
            0 <= k < children_of(s, parent).len() ==> is_child_of(
                children_of(s, parent)[k],
                parent,
            ) && children_of(s, parent)[k].segments.last() == children_names(s, parent)[k] && exists|
                i: int,
            | 0 <= i < s.len() && s[i] == children_of(s, parent)[k],
    decreases s.len(),
{
    if s.len() > 0 {
        lemma_children_of_props(s.drop_last(), parent);
        let rec = children_of(s.drop_last(), parent);
        assert forall|k: int|
            #![trigger children_of(s, parent)[k]]
            0 <= k < children_of(s, parent).len() implies is_child_of(
            children_of(s, parent)[k],
            parent,
        ) && children_of(s, parent)[k].segments.last() == children_names(s, parent)[k] && exists|
            i: int,
        | 0 <= i < s.len() && s[i] == children_of(s, parent)[k] by {
            if k < rec.len() {
                assert(children_of(s, parent)[k] == rec[k]);
                assert(children_names(s, parent)[k] == children_names(s.drop_last(), parent)[k]);
                let i = choose|i: int|
                    0 <= i < s.drop_last().len() && s.drop_last()[i] == rec[k];
                assert(s[i] == rec[k]);
            } else {
                assert(children_of(s, parent)[k] == s.last());
                assert(s[s.len() - 1] == s.last());
            }
        }
    }
}

/// A child of one spelling of the parent path is a child of any other.
pub proof fn lemma_is_child_ci(e: KeyEntryModel, p1: Seq<Seq<char>>, p2: Seq<Seq<char>>)
    requires
        segs_ci_eq(p1, p2),
    ensures
        is_child_of(e, p1) == is_child_of(e, p2),
{
    if is_child_of(e, p1) {
        lemma_segs_ci_trans(e.segments.take(p1.len() as int), p1, p2);
    }
    if is_child_of(e, p2) {
        lemma_segs_ci_sym(p1, p2);
        lemma_segs_ci_trans(e.segments.take(p2.len() as int), p2, p1);
    }
}

/// Enumeration does not depend on the spelling of the parent path.
pub proof fn lemma_children_ci(s: Seq<KeyEntryModel>, p1: Seq<Seq<char>>, p2: Seq<Seq<char>>)
    requires
        segs_ci_eq(p1, p2),
    ensures
        children_names(s, p1) == children_names(s, p2),
        children_of(s, p1) == children_of(s, p2),
        child_count(s, p1) == child_count(s, p2),
    decreases s.len(),
{
    if s.len() > 0 {
        lemma_children_ci(s.drop_last(), p1, p2);
        lemma_is_child_ci(s.last(), p1, p2);
    }
}

/// Every enumerated child name is the last segment of some child entry.
pub proof fn lemma_child_name_exists(s: Seq<KeyEntryModel>, parent: Seq<Seq<char>>, k: int)
    requires
        0 <= k < children_names(s, parent).len(),
    ensures
        exists|i: int|
            0 <= i < s.len() && is_child_of(#[trigger] s[i], parent) && s[i].segments.last()
                == children_names(s, parent)[k],
    decreases s.len(),
{
    let rec = children_names(s.drop_last(), parent);
    if k < rec.len() {
        lemma_child_name_exists(s.drop_last(), parent, k);
        let i = choose|i: int|
            0 <= i < s.drop_last().len() && is_child_of(#[trigger] s.drop_last()[i], parent)
                && s.drop_last()[i].segments.last() == rec[k];
        assert(s[i] == s.drop_last()[i]);
        assert(children_names(s, parent)[k] == rec[k]);
        assert(is_child_of(s[i], parent) && s[i].segments.last() == children_names(s, parent)[k]);
    } else {
        assert(is_child_of(s.last(), parent));
        assert(children_names(s, parent)[k] == s.last().segments.last());
        assert(is_child_of(s[s.len() - 1], parent) && s[s.len() - 1].segments.last()
            == children_names(s, parent)[k]);
    }
}

} // verus!
