use vstd::prelude::*;
use vstd::string::StrSliceExecFns;
use vstd::string::StringExecFns;
use crate::errors::RegistryError;
use crate::path::find_last_sep;
use crate::path::first_sep;
use crate::path::last_sep;
use crate::path::lemma_first_sep;
use crate::path::lemma_last_sep;
use crate::path::lemma_path_segs_len;
use crate::path::lemma_path_segs_sepfree;
use crate::path::path_segs;
use crate::path::split_path;
use crate::store::find_value;
use crate::store::find_value_at;
use crate::store::has_key;
use crate::store::lemma_find_value_at;
use crate::store::lemma_find_value_at_is;
use crate::store::names_match;
use crate::store::segs_ci_eq;
use crate::store::spec_root_name;
use crate::store::store_wf;
use crate::store::values_view;
use crate::store::KeyEntryModel;
use crate::store::RegStore;
use crate::store::ValueEntryModel;
use crate::strutil::ci_eq;
use crate::strutil::str_ci_eq;
use crate::value::spec_from_data;
use crate::value::spec_to_raw;
use crate::value::RegistryValue;
use crate::value::RegistryValueData;

verus! {

/// An open handle into the store: the index of the key it references,
/// and the logical path it was opened under, kept for identity and
/// navigation. The path's casing is the caller's; the store matches it
/// case-insensitively.
#[derive(Debug)]
pub struct RegistryKey {
    handle: usize,
    path: String,
    segments: Vec<String>,
}

pub struct KeyView {
    pub handle: int,
    pub path: Seq<char>,
    pub segments: Seq<Seq<char>>,
}

impl View for RegistryKey {
    type V = KeyView;

    closed spec fn view(&self) -> KeyView {
        KeyView { handle: self.handle as int, path: self.path@, segments: self.segments.deep_view() }
    }
}

/// A key view references a store key whose path matches its segments up to
/// case.
pub open spec fn view_valid(k: KeyView, s: Seq<KeyEntryModel>) -> bool {
    &&& 0 <= k.handle < s.len()
    &&& segs_ci_eq(s[k.handle].segments, k.segments)
}

impl RegistryKey {
    /// The handle references a key of the store whose path matches this
    /// key's segments up to case.
    pub open spec fn valid(&self, s: Seq<KeyEntryModel>) -> bool {
        view_valid(self@, s)
    }
}

/// Two handles are equal when they reference the same underlying key, or
/// when their paths match up to ASCII case: independently opened handles to
/// one logical key compare equal.
impl PartialEq for RegistryKey {
    fn eq(&self, other: &Self) -> (r: bool) {
        if self.handle == other.handle {
            true
        } else {
            str_ci_eq(self.path.as_str(), other.path.as_str())
        }
    }
}

impl Eq for RegistryKey {

}

impl vstd::std_specs::cmp::PartialEqSpecImpl for RegistryKey {
    open spec fn obeys_eq_spec() -> bool {
        true
    }

    open spec fn eq_spec(&self, other: &Self) -> bool {
        self@.handle == other@.handle || ci_eq(self@.path, other@.path)
    }
}

// ---------------------------------------------------------------------------
// Shared executable helpers over segment lists.
// ---------------------------------------------------------------------------

pub(crate) fn segs_ci_eq_exec(a: &Vec<String>, b: &Vec<String>) -> (r: bool)
    ensures
        r == segs_ci_eq(a.deep_view(), b.deep_view()),
{
    let n: usize = a.len();
    if n != b.len() {
        return false;
    }
    let mut i: usize = 0;
    while i < n
        invariant
            n == a@.len(),
            n == b@.len(),
            i <= n,
            forall|j: int| 0 <= j < i ==> ci_eq(a.deep_view()[j], b.deep_view()[j]),
        decreases n - i,
    {
        if !str_ci_eq(a[i].as_str(), b[i].as_str()) {
            assert(!ci_eq(a.deep_view()[i as int], b.deep_view()[i as int]));
            return false;
        }
        i += 1;
    }
    true
}

pub(crate) fn clone_segments(v: &Vec<String>) -> (r: Vec<String>)
    ensures
        r.deep_view() == v.deep_view(),
        r@.len() == v@.len(),
{
    let n: usize = v.len();
    let mut out: Vec<String> = Vec::new();
    let mut i: usize = 0;
    while i < n
        invariant
            n == v@.len(),
            i <= n,
            out@.len() == i,
            forall|j: int| 0 <= j < i ==> out@[j]@ == v@[j]@,
        decreases n - i,
    {
        out.push(v[i].clone());
        i += 1;
    }
    proof {
        assert(out.deep_view() =~= v.deep_view());
    }
    out
}

/// Finds the store index of the key with the given path, if present.
pub(crate) fn find_key_index(store: &RegStore, segs: &Vec<String>) -> (r: Option<usize>)
    ensures
        match r {
            Some(i) => i < store@.len() && segs_ci_eq(store@[i as int].segments, segs.deep_view()),
            None => !has_key(store@, segs.deep_view()),
        },
{
    let n: usize = store.keys.len();
    let mut i: usize = 0;
    while i < n
        invariant
            n == store@.len(),
            i <= n,
            forall|j: int| 0 <= j < i ==> !segs_ci_eq(store@[j].segments, segs.deep_view()),
        decreases n - i,
    {
        assert(store@[i as int].segments == store.keys@[i as int].segments.deep_view());
        if segs_ci_eq_exec(&store.keys[i].segments, segs) {
            return Some(i);
        }
        i += 1;
    }
    None
}

// ---------------------------------------------------------------------------
// The five well-known roots.
// ---------------------------------------------------------------------------

/// The root handle a name selects: the full name or its standard short
/// alias, matched case-insensitively; -1 when it matches none.
pub open spec fn root_index_of(name: Seq<char>) -> int {
    if ci_eq(name, "HKEY_LOCAL_MACHINE"@) || ci_eq(name, "HKLM"@) {
        0
    } else if ci_eq(name, "HKEY_CURRENT_CONFIG"@) || ci_eq(name, "HKCC"@) {
        1
    } else if ci_eq(name, "HKEY_CLASSES_ROOT"@) || ci_eq(name, "HKCR"@) {
        2
    } else if ci_eq(name, "HKEY_CURRENT_USER"@) || ci_eq(name, "HKCU"@) {
        3
    } else if ci_eq(name, "HKEY_USERS"@) || ci_eq(name, "HKU"@) {
        4
    } else {
        -1
    }
}

/// The view every root constructor returns: the fixed handle, the canonical
/// name as path, one segment.
pub open spec fn is_root_view(k: KeyView, i: int) -> bool {
    &&& k.handle == i
    &&& k.path == spec_root_name(i)
    &&& k.segments == seq![spec_root_name(i)]
}

/// A root handle is valid in every well-formed store: the roots are
/// process-wide constants, not owned resources.
pub proof fn lemma_root_valid(k: &RegistryKey, s: Seq<KeyEntryModel>)
    requires
        store_wf(s),
        0 <= k@.handle < 5,
        is_root_view(k@, k@.handle),
    ensures
        k.valid(s),
{
    assert(s[k@.handle].segments =~= seq![spec_root_name(k@.handle)]);
    assert(segs_ci_eq(s[k@.handle].segments, k@.segments));
}

fn make_root(i: usize, name: &str) -> (r: RegistryKey)
    requires
        i < 5,
        name@ == spec_root_name(i as int),
    ensures
        is_root_view(r@, i as int),
{
    let path = name.to_owned();
    let mut segs: Vec<String> = Vec::new();
    segs.push(name.to_owned());
    let r = RegistryKey { handle: i, path, segments: segs };
    proof {
        assert(r@.segments =~= seq![spec_root_name(i as int)]);
    }
    r
}

impl RegistryKey {
    pub fn local_machine() -> (r: RegistryKey)
        ensures
            is_root_view(r@, 0),
    {
        make_root(0, "HKEY_LOCAL_MACHINE")
    }

    pub fn current_config() -> (r: RegistryKey)
        ensures
            is_root_view(r@, 1),
    {
        make_root(1, "HKEY_CURRENT_CONFIG")
    }

    pub fn classes_root() -> (r: RegistryKey)
        ensures
            is_root_view(r@, 2),
    {
        make_root(2, "HKEY_CLASSES_ROOT")
    }

    pub fn current_user() -> (r: RegistryKey)
        ensures
            is_root_view(r@, 3),
    {
        make_root(3, "HKEY_CURRENT_USER")
    }

    pub fn users() -> (r: RegistryKey)
        ensures
            is_root_view(r@, 4),
    {
        make_root(4, "HKEY_USERS")
    }

    fn get_root_from_name(name: &str) -> (r: Result<RegistryKey, RegistryError>)
        ensures
            match r {
                Ok(k) => root_index_of(name@) >= 0 && is_root_view(k@, root_index_of(name@)),
                Err(e) => e == RegistryError::InvalidName && root_index_of(name@) == -1,
            },
    {
        if str_ci_eq(name, "HKEY_LOCAL_MACHINE") || str_ci_eq(name, "HKLM") {
            Ok(Self::local_machine())
        } else if str_ci_eq(name, "HKEY_CURRENT_CONFIG") || str_ci_eq(name, "HKCC") {
            Ok(Self::current_config())
        } else if str_ci_eq(name, "HKEY_CLASSES_ROOT") || str_ci_eq(name, "HKCR") {
            Ok(Self::classes_root())
        } else if str_ci_eq(name, "HKEY_CURRENT_USER") || str_ci_eq(name, "HKCU") {
            Ok(Self::current_user())
        } else if str_ci_eq(name, "HKEY_USERS") || str_ci_eq(name, "HKU") {
            Ok(Self::users())
        } else {
            Err(RegistryError::InvalidName)
        }
    }

    // -----------------------------------------------------------------------
    // Path accessors.
    // -----------------------------------------------------------------------

    /// The logical path this handle was opened under.
    pub fn get_path(&self) -> (r: &str)
        ensures
            r@ == self@.path,
    {
        self.path.as_str()
    }

    /// The key's own name: the last path segment.
    pub fn get_name(&self) -> (r: String)
        ensures
            r@ == path_segs(self@.path).last(),
    {
        let segs = split_path(self.path.as_str());
        proof {
            lemma_path_segs_len(self@.path);
        }
        let n: usize = segs.len();
        let r = segs[n - 1].clone();
        proof {
            assert(segs.deep_view()[n - 1] == r@);
        }
        r
    }

    /// A root is identified structurally: its path has no separator.
    pub fn is_root_key(&self) -> (r: bool)
        ensures
            r == (forall|i: int| 0 <= i < self@.path.len() ==> self@.path[i] != '\\'),
    {
        proof {
            lemma_last_sep(self@.path);
        }
        match find_last_sep(self.path.as_str()) {
            Some(_) => false,
            None => true,
        }
    }

    /// Releases the handle. In this model a handle holds no native
    /// resource, so consuming the key is the whole release; the five roots
    /// are never released anywhere.
    pub fn close(self) {
    }

    // -----------------------------------------------------------------------
    // Navigation.
    // -----------------------------------------------------------------------

    /// Opens an existing child (or descendant, when `name` itself holds
    /// separators) for full access: succeeds exactly when the key exists.
    pub fn get_subkey(&self, store: &RegStore, name: &str) -> (r: Result<
        RegistryKey,
        RegistryError,
    >)
        requires
            store.wf(),
            self.valid(store@),
        ensures
            match r {
                Ok(k) => {
                    &&& has_key(store@, self@.segments + path_segs(name@))
                    &&& k.valid(store@)
                    &&& k@.segments == self@.segments + path_segs(name@)
                    &&& k@.path == self@.path + seq!['\\'] + name@
                },
                Err(e) => {
                    &&& e == RegistryError::NotFound
                    &&& !has_key(store@, self@.segments + path_segs(name@))
                },
            },
    {
        let mut segs = clone_segments(&self.segments);
        let mut extra = split_path(name);
        segs.append(&mut extra);
        proof {
            assert(segs.deep_view() =~= self@.segments + path_segs(name@));
        }
        match find_key_index(store, &segs) {
            Some(h) => {
                let mut p = self.path.clone();
                p.append("\\");
                p.append(name);
                proof {
                    reveal_strlit("\\");
                    assert("\\"@ =~= seq!['\\']);
                }
                Ok(RegistryKey { handle: h, path: p, segments: segs })
            },
            None => Err(RegistryError::NotFound),
        }
    }

    /// Resolves a full path: the part before the first separator names a
    /// root, the rest is opened beneath it. Fails with `InvalidName` on an
    /// unknown root and `NotFound` on a missing key.
    pub fn from_path(store: &RegStore, path: &str) -> (r: Result<RegistryKey, RegistryError>)
        requires
            store.wf(),
        ensures
            resolves_to(store@, path@, r),
    {
        proof {
            lemma_first_sep(path@);
        }
        let n: usize = path.unicode_len();
        let mut k: usize = 0;
        while k < n && path.get_char(k) != '\\'
            invariant
                n == path@.len(),
                k <= n,
                forall|t: int| 0 <= t < k ==> path@[t] != '\\',
            decreases n - k,
        {
            k += 1;
        }
        proof {
            crate::path::lemma_first_sep_is(path@, k as int);
        }
        if k == n {
            proof {
                lemma_path_segs_sepfree(path@);
            }
            let r = Self::get_root_from_name(path);
            match r {
                Ok(root) => {
                    proof {
                        assert(path_segs(path@)[0] == path@);
                        assert(root@.segments =~= seq![spec_root_name(root_index_of(path@))]
                            + path_segs(path@).skip(1));
                        lemma_root_valid(&root, store@);
                        assert(segs_ci_eq(store@[root@.handle].segments, root@.segments));
                    }
                    Ok(root)
                },
                Err(e) => {
                    proof {
                        assert(path_segs(path@)[0] == path@);
                    }
                    Err(e)
                },
            }
        } else {
            let root_name = path.substring_char(0, k);
            let rest = path.substring_char(k + 1, n);
            proof {
                assert(root_name@ =~= path@.take(k as int));
                assert(rest@ =~= path@.skip(k as int + 1));
                assert(path_segs(path@) == seq![path@.take(k as int)] + path_segs(
                    path@.skip(k as int + 1),
                ));
                assert(path_segs(path@)[0] == path@.take(k as int));
                assert(path_segs(path@).skip(1) =~= path_segs(path@.skip(k as int + 1)));
            }
            let root = match Self::get_root_from_name(root_name) {
                Ok(root) => root,
                Err(e) => {
                    return Err(e);
                },
            };
            proof {
                lemma_root_valid(&root, store@);
            }
            let r = root.get_subkey(store, rest);
            match r {
                Ok(kk) => {
                    proof {
                        assert(kk@.segments =~= seq![spec_root_name(root_index_of(
                            path_segs(path@)[0],
                        ))] + path_segs(path@).skip(1));
                    }
                    Ok(kk)
                },
                Err(e) => {
                    proof {
                        assert(!has_key(
                            store@,
                            seq![spec_root_name(root_index_of(path_segs(path@)[0]))] + path_segs(
                                path@,
                            ).skip(1),
                        )) by {
                            assert(root@.segments + path_segs(rest@) =~= seq![spec_root_name(
                                root_index_of(path_segs(path@)[0]),
                            )] + path_segs(path@).skip(1));
                        }
                    }
                    Err(e)
                },
            }
        }
    }

    /// A root has no parent; any other key's parent is found by resolving
    /// the path with its last segment stripped.
    pub fn get_parent(&self, store: &RegStore) -> (r: Result<RegistryKey, RegistryError>)
        requires
            store.wf(),
        ensures
            (forall|i: int| 0 <= i < self@.path.len() ==> self@.path[i] != '\\') ==> r == Err::<
                RegistryKey,
                RegistryError,
            >(RegistryError::InvalidOperation),
            (exists|i: int| 0 <= i < self@.path.len() && self@.path[i] == '\\') ==> resolves_to(
                store@,
                self@.path.take(last_sep(self@.path)),
                r,
            ),
    {
        if self.is_root_key() {
            return Err(RegistryError::InvalidOperation);
        }
        proof {
            lemma_last_sep(self@.path);
        }
        let i = match find_last_sep(self.path.as_str()) {
            Some(i) => i,
            None => {
                // unreachable: a non-root path holds a separator
                proof {
                    assert(false);
                }
                0
            },
        };
        let parent_path = self.path.as_str().substring_char(0, i);
        proof {
            assert(parent_path@ =~= self@.path.take(last_sep(self@.path)));
        }
        Self::from_path(store, parent_path)
    }
}

impl RegistryKey {
    /// Opens the named child if it exists, creating it (and any missing
    /// intermediate keys) persistently otherwise. Only a nameless segment is
    /// rejected; creation itself cannot fail in the model.
    pub fn create_subkey(&self, store: &mut RegStore, name: &str) -> (r: Result<
        RegistryKey,
        RegistryError,
    >)
        requires
            old(store).wf(),
            self.valid(old(store)@),
        ensures
            match r {
                Ok(k) => {
                    &&& final(store).wf()
                    &&& old(store)@.len() <= final(store)@.len()
                    &&& forall|i: int|
                        0 <= i < old(store)@.len() ==> final(store)@[i] == old(store)@[i]
                    &&& forall|j: int|
                        old(store)@.len() <= j < final(store)@.len() ==> (#[trigger] final(store)@[j]).values.len()
                            == 0 && exists|t: int|
                            1 <= t <= path_segs(name@).len() && segs_ci_eq(
                                final(store)@[j].segments,
                                self@.segments + path_segs(name@).take(t),
                            )
                    &&& k@.segments == self@.segments + path_segs(name@)
                    &&& k@.path == self@.path + seq!['\\'] + name@
                    &&& k.valid(final(store)@)
                    &&& has_key(final(store)@, k@.segments)
                    &&& forall|i: int|
                        0 <= i < path_segs(name@).len() ==> (#[trigger] path_segs(
                            name@,
                        )[i]).len() > 0
                },
                Err(e) => {
                    &&& e == RegistryError::InvalidName
                    &&& *final(store) == *old(store)
                    &&& exists|i: int|
                        0 <= i < path_segs(name@).len() && (#[trigger] path_segs(name@)[i]).len()
                            == 0
                },
            },
    {
        let extra = split_path(name);
        let m: usize = extra.len();
        let mut t: usize = 0;
        while t < m
            invariant
                m == extra@.len(),
                extra.deep_view() == path_segs(name@),
                t <= m,
                forall|j: int| 0 <= j < t ==> (#[trigger] extra.deep_view()[j]).len() > 0,
            decreases m - t,
        {
            if extra[t].as_str().is_empty() {
                assert(extra.deep_view()[t as int].len() == 0);
                return Err(RegistryError::InvalidName);
            }
            t += 1;
        }
        proof {
            crate::path::lemma_path_segs_no_sep(name@);
        }
        let mut cur = clone_segments(&self.segments);
        let mut h: usize = self.get_handle_internal();
        proof {
            assert(cur.deep_view() =~= self@.segments + path_segs(name@).take(0));
        }
        let mut t: usize = 0;
        while t < m
            invariant
                store_wf(store@),
                old(store)@.len() <= store@.len(),
                forall|i: int| 0 <= i < old(store)@.len() ==> store@[i] == old(store)@[i],
                forall|j: int|
                    old(store)@.len() <= j < store@.len() ==> (#[trigger] store@[j]).values.len()
                        == 0 && exists|w: int|
                        1 <= w <= path_segs(name@).len() && segs_ci_eq(
                            store@[j].segments,
                            self@.segments + path_segs(name@).take(w),
                        ),
                self.valid(old(store)@),
                self.valid(store@),
                m == extra@.len(),
                extra.deep_view() == path_segs(name@),
                forall|j: int| 0 <= j < m ==> (#[trigger] extra.deep_view()[j]).len() > 0,
                t <= m,
                cur.deep_view() == self@.segments + path_segs(name@).take(t as int),
                h < store@.len(),
                segs_ci_eq(store@[h as int].segments, cur.deep_view()),
            decreases m - t,
        {
            let ghost prev = cur.deep_view();
            let ghost hprev = h as int;
            cur.push(extra[t].clone());
            proof {
                assert(cur.deep_view() =~= prev.push(extra.deep_view()[t as int]));
                assert(path_segs(name@).take(t as int).push(path_segs(name@)[t as int])
                    =~= path_segs(name@).take(t + 1));
                assert(cur.deep_view() =~= self@.segments + path_segs(name@).take(t + 1));
            }
            match find_key_index(store, &cur) {
                Some(hh) => {
                    h = hh;
                },
                None => {
                    let entry = crate::store::RegKeyEntry {
                        segments: clone_segments(&cur),
                        values: Vec::new(),
                    };
                    let ghost s0 = store@;
                    proof {
                        assert(entry@.segments == cur.deep_view());
                        assert(entry@.values.len() == 0);
                        assert(cur.deep_view().len() == prev.len() + 1);
                        assert(prev.len() >= 1) by {
                            assert(store@[self@.handle].segments.len() >= 1);
                        }
                        assert forall|k: int|
                            0 <= k < entry@.segments.len() implies crate::store::seg_ok(
                            #[trigger] entry@.segments[k],
                        ) by {
                            if k < prev.len() {
                                assert(segs_ci_eq(s0[hprev].segments, prev));
                                assert(ci_eq(s0[hprev].segments[k], prev[k]));
                                assert(entry@.segments[k] == prev[k]);
                                assert(crate::store::seg_ok(s0[hprev].segments[k]));
                                crate::store::lemma_ci_seg_ok(
                                    s0[hprev].segments[k],
                                    prev[k],
                                );
                            } else {
                                let seg = path_segs(name@)[t as int];
                                assert(entry@.segments[k] == seg);
                                assert(seg.len() > 0);
                                crate::path::lemma_path_segs_no_sep(name@);
                                assert forall|ci: int| 0 <= ci < seg.len() implies seg[ci]
                                    != '\\' by {
                                    assert(path_segs(name@)[t as int][ci] != '\\');
                                }
                            }
                        }
                        assert(entry@.segments.drop_last() =~= prev);
                        assert(has_key(s0, prev)) by {
                            assert(segs_ci_eq(s0[hprev].segments, prev));
                        }
                        crate::store::lemma_store_push_wf(s0, entry@);
                    }
                    store.keys.push(entry);
                    proof {
                        assert(store@ =~= s0.push(entry@));
                    }
                    h = store.keys.len() - 1;
                    proof {
                        assert(store@[h as int].segments == cur.deep_view());
                        assert(segs_ci_eq(store@[h as int].segments, cur.deep_view()));
                        assert forall|j: int|
                            old(store)@.len() <= j < store@.len() implies (#[trigger] store@[j]).values.len()
                            == 0 && exists|w: int|
                            1 <= w <= path_segs(name@).len() && segs_ci_eq(
                                store@[j].segments,
                                self@.segments + path_segs(name@).take(w),
                            ) by {
                            if j < s0.len() {
                            } else {
                                assert(store@[j] == entry@);
                                assert(segs_ci_eq(
                                    store@[j].segments,
                                    self@.segments + path_segs(name@).take(t + 1),
                                ));
                                assert(1 <= t + 1 <= path_segs(name@).len());
                            }
                        }
                    }
                },
            }
            t += 1;
        }
        proof {
            assert(path_segs(name@).take(m as int) =~= path_segs(name@));
        }
        let mut p = self.path.clone();
        p.append("\\");
        p.append(name);
        proof {
            reveal_strlit("\\");
            assert("\\"@ =~= seq!['\\']);
        }
        Ok(RegistryKey { handle: h, path: p, segments: cur })
    }

    fn get_handle_internal(&self) -> (r: usize)
        ensures
            r as int == self@.handle,
    {
        self.handle
    }

    pub(crate) fn segments_vec(&self) -> (r: &Vec<String>)
        ensures
            r.deep_view() == self@.segments,
    {
        &self.segments
    }
}

// ---------------------------------------------------------------------------
// Value access.
// ---------------------------------------------------------------------------

/// The model of an optional value name handed in by a caller.
pub open spec fn opt_name_view(n: Option<&str>) -> Option<Seq<char>> {
    match n {
        Some(s) => Some(s@),
        None => None,
    }
}

/// First index whose entry answers to `name`, or the list length.
fn find_value_index(vals: &Vec<crate::store::RegValueEntry>, name: Option<&str>) -> (r: usize)
    ensures
        r <= vals@.len(),
        r as int == find_value_at(values_view(vals@), opt_name_view(name)),
{
    let n: usize = vals.len();
    let mut i: usize = 0;
    while i < n
        invariant
            n == vals@.len(),
            i <= n,
            forall|j: int|
                0 <= j < i ==> !names_match(values_view(vals@)[j].name, opt_name_view(name)),
        decreases n - i,
    {
        let hit: bool = match (&vals[i].name, name) {
            (Some(a), Some(b)) => str_ci_eq(a.as_str(), b),
            (None, None) => true,
            _ => false,
        };
        proof {
            assert(values_view(vals@)[i as int] == vals@[i as int]@);
        }
        if hit {
            proof {
                lemma_find_value_at_is(values_view(vals@), opt_name_view(name), i as int);
            }
            return i;
        }
        i += 1;
    }
    proof {
        lemma_find_value_at_is(values_view(vals@), opt_name_view(name), n as int);
    }
    n
}

impl RegistryKey {
    /// Reads a named value (or the unnamed default) as a typed snapshot.
    ///
    /// The read is two-phase, as the native call is: the first pass probes
    /// the value's type and byte length, the second fills a buffer sized
    /// exactly to the probe. Fails with `NotFound` when the value is absent
    /// and as the codec fails when its bytes do not decode.
    pub fn get_value<'a>(&'a self, store: &RegStore, name: Option<&str>) -> (r: Result<
        RegistryValue<'a>,
        RegistryError,
    >)
        requires
            store.wf(),
            self.valid(store@),
        ensures
            ({
                let vs = store@[self@.handle].values;
                match find_value(vs, opt_name_view(name)) {
                    Some(entry) => match spec_from_data(entry.tag, entry.data) {
                        Ok(m) => r is Ok && r.unwrap().spec_key() == self@ && r.unwrap().spec_name()
                            == opt_name_view(name) && r.unwrap().spec_value() == m,
                        Err(e) => r matches Err(e2) && e2 == e,
                    },
                    None => r matches Err(e2) && e2 == RegistryError::NotFound,
                }
            }),
    {
        let h: usize = self.handle;
        let vals = &store.keys[h].values;
        proof {
            assert(store@[self@.handle].values == values_view(vals@));
            lemma_find_value_at(values_view(vals@), opt_name_view(name));
        }
        let idx = find_value_index(vals, name);
        if idx == vals.len() {
            return Err(RegistryError::NotFound);
        }
        // First phase: probe the type tag and the exact byte length.
        let tag: u32 = vals[idx].type_tag;
        let len: usize = vals[idx].data.len();
        // Second phase: re-read into a buffer of exactly the probed size.
        let mut buf: Vec<u8> = Vec::new();
        let mut j: usize = 0;
        while j < len
            invariant
                h == self@.handle,
                h < store@.len(),
                idx < vals@.len(),
                vals == &store.keys[h as int].values,
                len == vals@[idx as int].data@.len(),
                j <= len,
                buf@ =~= vals@[idx as int].data@.take(j as int),
            decreases len - j,
        {
            buf.push(vals[idx].data[j]);
            assert(buf@ =~= vals@[idx as int].data@.take(j + 1));
            j += 1;
        }
        proof {
            assert(buf@ =~= vals@[idx as int].data@);
            assert(values_view(vals@)[idx as int] == vals@[idx as int]@);
        }
        let owned: Option<String> = match name {
            Some(s) => Some(s.to_owned()),
            None => None,
        };
        RegistryValue::new_from_data(self, owned, tag, buf)
    }

    /// As `get_value`, but an absent value is an empty result, not a
    /// failure.
    pub fn try_get_value<'a>(&'a self, store: &RegStore, name: Option<&str>) -> (r: Result<
        Option<RegistryValue<'a>>,
        RegistryError,
    >)
        requires
            store.wf(),
            self.valid(store@),
        ensures
            ({
                let vs = store@[self@.handle].values;
                match find_value(vs, opt_name_view(name)) {
                    Some(entry) => match spec_from_data(entry.tag, entry.data) {
                        Ok(m) => r is Ok && r.unwrap() is Some && r.unwrap().unwrap().spec_key()
                            == self@ && r.unwrap().unwrap().spec_name() == opt_name_view(name)
                            && r.unwrap().unwrap().spec_value() == m,
                        Err(e) => r matches Err(e2) && e2 == e,
                    },
                    None => r matches Ok(o) && o is None,
                }
            }),
    {
        proof {
            let vs = store@[self@.handle].values;
            assert(match find_value(vs, opt_name_view(name)) {
                Some(entry) => match spec_from_data(entry.tag, entry.data) {
                    Err(e) => e != RegistryError::NotFound,
                    _ => true,
                },
                None => true,
            });
        }
        match self.get_value(store, name) {
            Ok(v) => Ok(Some(v)),
            Err(e) => {
                if e == RegistryError::NotFound {
                    Ok(None)
                } else {
                    Err(e)
                }
            },
        }
    }

    /// Encodes the value and writes it under the name, silently overwriting
    /// any previous value of that name; everything else is untouched.
    pub fn set_value(&self, store: &mut RegStore, name: Option<&str>, value: RegistryValueData) -> (r:
        Result<(), RegistryError>)
        requires
            old(store).wf(),
            self.valid(old(store)@),
        ensures
            r is Ok,
            final(store).wf(),
            final(store)@.len() == old(store)@.len(),
            self.valid(final(store)@),
            forall|i: int|
                0 <= i < old(store)@.len() && i != self@.handle ==> final(store)@[i] == old(
                    store,
                )@[i],
            final(store)@[self@.handle].segments == old(store)@[self@.handle].segments,
            find_value(final(store)@[self@.handle].values, opt_name_view(name)) == Some(
                ValueEntryModel {
                    name: opt_name_view(name),
                    tag: spec_to_raw(value@).0,
                    data: spec_to_raw(value@).1,
                },
            ),
            forall|n2: Option<Seq<char>>|
                !names_match(n2, opt_name_view(name)) ==> find_value(
                    final(store)@[self@.handle].values,
                    n2,
                ) == find_value(old(store)@[self@.handle].values, n2),
    {
        let ghost n = opt_name_view(name);
        let (tag, data) = value.to_raw();
        let owned: Option<String> = match name {
            Some(s) => Some(s.to_owned()),
            None => None,
        };
        let entry = crate::store::RegValueEntry { name: owned, type_tag: tag, data };
        proof {
            assert(entry@ == ValueEntryModel {
                name: n,
                tag: spec_to_raw(value@).0,
                data: spec_to_raw(value@).1,
            });
        }
        let h: usize = self.handle;
        let ghost s0 = store@;
        let ghost vs0 = s0[h as int].values;
        proof {
            assert(vs0 == values_view(store.keys@[h as int].values@));
            lemma_find_value_at(vs0, n);
        }
        let idx = find_value_index(&store.keys[h].values, name);
        let vlen: usize = store.keys[h].values.len();
        if idx < vlen {
            store.keys[h].values[idx] = entry;
            proof {
                assert(store@.len() == s0.len());
                assert(forall|i: int| 0 <= i < s0.len() && i != h as int ==> store@[i] == s0[i]);
                assert(store@[h as int].segments == s0[h as int].segments);
                assert(store@[h as int].values =~= vs0.update(idx as int, entry@));
                crate::store::lemma_set_value_update(
                    s0,
                    store@,
                    h as int,
                    idx as int,
                    entry@,
                    n,
                );
            }
        } else {
            store.keys[h].values.push(entry);
            proof {
                assert(store@.len() == s0.len());
                assert(forall|i: int| 0 <= i < s0.len() && i != h as int ==> store@[i] == s0[i]);
                assert(store@[h as int].segments == s0[h as int].segments);
                assert(store@[h as int].values =~= vs0.push(entry@));
                crate::store::lemma_set_value_append(s0, store@, h as int, entry@, n);
            }
        }
        Ok(())
    }
}

// ---------------------------------------------------------------------------
// Children: counting and lazy enumeration.
// ---------------------------------------------------------------------------

/// Whether `child` names an immediate child of `parent`.
fn is_child_exec(child: &Vec<String>, parent: &Vec<String>) -> (r: bool)
    ensures
        r == (child.deep_view().len() == parent.deep_view().len() + 1 && segs_ci_eq(
            child.deep_view().take(parent.deep_view().len() as int),
            parent.deep_view(),
        )),
{
    let cl: usize = child.len();
    let pl: usize = parent.len();
    if cl < 1 || cl - 1 != pl {
        return false;
    }
    let mut j: usize = 0;
    while j < pl
        invariant
            cl == child@.len(),
            pl == parent@.len(),
            cl == pl + 1,
            j <= pl,
            forall|t: int| 0 <= t < j ==> ci_eq(child.deep_view()[t], parent.deep_view()[t]),
        decreases pl - j,
    {
        if !str_ci_eq(child[j].as_str(), parent[j].as_str()) {
            assert(!ci_eq(child.deep_view()[j as int], parent.deep_view()[j as int]));
            assert(child.deep_view().take(pl as int)[j as int] == child.deep_view()[j as int]);
            return false;
        }
        j += 1;
    }
    proof {
        assert forall|t: int| 0 <= t < pl implies ci_eq(
            child.deep_view().take(pl as int)[t],
            parent.deep_view()[t],
        ) by {
            assert(child.deep_view().take(pl as int)[t] == child.deep_view()[t]);
        }
    }
    true
}

impl RegistryKey {
    /// How many immediate children the key has: a metadata count, not an
    /// enumeration.
    pub fn count_children(&self, store: &RegStore) -> (r: Result<usize, RegistryError>)
        requires
            store.wf(),
            self.valid(store@),
        ensures
            r is Ok,
            r.unwrap() as int == crate::store::child_count(
                store@,
                store@[self@.handle].segments,
            ),
    {
        let h: usize = self.handle;
        let parent = &store.keys[h].segments;
        let ghost par = store@[self@.handle].segments;
        proof {
            assert(parent.deep_view() == par);
        }
        let n: usize = store.keys.len();
        let mut cnt: usize = 0;
        let mut i: usize = 0;
        proof {
            assert(store@.take(0) =~= Seq::<KeyEntryModel>::empty());
        }
        while i < n
            invariant
                n == store@.len(),
                i <= n,
                cnt <= i,
                par == store@[self@.handle].segments,
                parent == &store.keys[h as int].segments,
                parent.deep_view() == par,
                cnt as int == crate::store::child_count(store@.take(i as int), par),
            decreases n - i,
        {
            proof {
                assert(store@.take(i + 1).drop_last() =~= store@.take(i as int));
                assert(store@.take(i + 1).last() == store@[i as int]);
            }
            if is_child_exec(&store.keys[i].segments, parent) {
                assert(crate::store::is_child_of(store@[i as int], par));
                cnt += 1;
            } else {
                assert(!crate::store::is_child_of(store@[i as int], par));
            }
            i += 1;
        }
        proof {
            assert(store@.take(n as int) =~= store@);
        }
        Ok(cnt)
    }

    /// Begins a lazy, non-restartable walk over the child names. The walk
    /// is indexed against the live store, as the native enumeration is: it
    /// takes no snapshot.
    pub fn iter_children_names(&self) -> (it: ChildNames)
        ensures
            it.spec_handle() == self@.handle,
            it.spec_yielded() == 0,
    {
        ChildNames { handle: self.handle, yielded: 0 }
    }

    /// Begins a lazy walk over the children themselves, opening each by
    /// name as it is reached.
    pub fn iter_children<'a>(&'a self) -> (it: ChildKeys<'a>)
        ensures
            it.spec_parent() == self@,
            it.spec_yielded() == 0,
            it.cursor_ok(),
    {
        ChildKeys { parent: self, names: ChildNames { handle: self.handle, yielded: 0 } }
    }
}

/// The lazy child-name walk: the parent's handle and how many names have
/// been yielded.
pub struct ChildNames {
    handle: usize,
    yielded: usize,
}

impl ChildNames {
    pub closed spec fn spec_handle(&self) -> int {
        self.handle as int
    }

    pub closed spec fn spec_yielded(&self) -> int {
        self.yielded as int
    }

    /// The next child name in store order, or `None` once the children are
    /// exhausted: end-of-sequence, not an error.
    pub fn next(&mut self, store: &RegStore) -> (r: Option<Result<String, RegistryError>>)
        requires
            store.wf(),
            0 <= old(self).spec_handle() < store@.len(),
        ensures
            ({
                let names = crate::store::children_names(
                    store@,
                    store@[old(self).spec_handle()].segments,
                );
                &&& final(self).spec_handle() == old(self).spec_handle()
                &&& match r {
                    Some(res) => {
                        &&& res is Ok
                        &&& old(self).spec_yielded() < names.len()
                        &&& res.unwrap()@ == names[old(self).spec_yielded()]
                        &&& final(self).spec_yielded() == old(self).spec_yielded() + 1
                    },
                    None => {
                        &&& old(self).spec_yielded() >= names.len()
                        &&& final(self).spec_yielded() == old(self).spec_yielded()
                    },
                }
            }),
    {
        let h: usize = self.handle;
        let parent = &store.keys[h].segments;
        let ghost par = store@[h as int].segments;
        let ghost names = crate::store::children_names(store@, par);
        proof {
            assert(parent.deep_view() == par);
            assert(store@.take(0) =~= Seq::<KeyEntryModel>::empty());
        }
        let n: usize = store.keys.len();
        let mut i: usize = 0;
        let mut c: usize = 0;
        while i < n
            invariant
                n == store@.len(),
                i <= n,
                h == self.handle,
                h < store@.len(),
                self.handle == old(self).handle,
                self.yielded == old(self).yielded,
                par == store@[h as int].segments,
                parent == &store.keys[h as int].segments,
                parent.deep_view() == par,
                names == crate::store::children_names(store@, par),
                c <= self.yielded,
                c <= i,
                c as int == crate::store::children_names(store@.take(i as int), par).len(),
                crate::store::children_names(store@.take(i as int), par) == names.take(c as int),
            decreases n - i,
        {
            proof {
                assert(store@.take(i + 1).drop_last() =~= store@.take(i as int));
                assert(store@.take(i + 1).last() == store@[i as int]);
                assert(store@ =~= store@.take(i + 1) + store@.skip(i + 1));
                crate::store::lemma_children_names_concat(
                    store@.take(i + 1),
                    store@.skip(i + 1),
                    par,
                );
            }
            let ghost pre = crate::store::children_names(store@.take(i + 1), par);
            proof {
                assert(names == pre + crate::store::children_names(store@.skip(i + 1), par));
                assert(pre.len() <= names.len());
                assert(pre =~= names.take(pre.len() as int));
            }
            if is_child_exec(&store.keys[i].segments, parent) {
                assert(crate::store::is_child_of(store@[i as int], par));
                if c == self.yielded {
                    let segs = &store.keys[i].segments;
                    let sl: usize = segs.len();
                    assert(sl == store@[i as int].segments.len());
                    let nm = segs[sl - 1].clone();
                    proof {
                        assert(nm@ == store@[i as int].segments.last());
                        assert(pre.len() == c + 1);
                        assert(c < names.len());
                        assert(pre[c as int] == store@[i as int].segments.last());
                        assert(names[c as int] == pre[c as int]);
                    }
                    self.yielded = self.yielded + 1;
                    return Some(Ok(nm));
                }
                c += 1;
            } else {
                assert(!crate::store::is_child_of(store@[i as int], par));
            }
            i += 1;
        }
        proof {
            assert(store@.take(n as int) =~= store@);
            assert(names.take(c as int) =~= names);
        }
        None
    }
}

/// The lazy child walk: each name is opened as a key when it is reached,
/// so one unresolvable child would not abort the rest.
pub struct ChildKeys<'a> {
    parent: &'a RegistryKey,
    names: ChildNames,
}

impl<'a> ChildKeys<'a> {
    pub closed spec fn spec_parent(&self) -> KeyView {
        self.parent@
    }

    pub closed spec fn spec_yielded(&self) -> int {
        self.names.spec_yielded()
    }

    pub closed spec fn cursor_ok(&self) -> bool {
        self.names.spec_handle() == self.parent@.handle
    }

    /// The next child as an open key, in store order.
    pub fn next(&mut self, store: &RegStore) -> (r: Option<Result<RegistryKey, RegistryError>>)
        requires
            store.wf(),
            old(self).cursor_ok(),
            view_valid(old(self).spec_parent(), store@),
        ensures
            ({
                let names = crate::store::children_names(
                    store@,
                    store@[old(self).spec_parent().handle].segments,
                );
                &&& final(self).spec_parent() == old(self).spec_parent()
                &&& final(self).cursor_ok()
                &&& match r {
                    Some(res) => {
                        &&& res is Ok
                        &&& old(self).spec_yielded() < names.len()
                        &&& res.unwrap().valid(store@)
                        &&& res.unwrap()@.segments == old(self).spec_parent().segments + seq![
                            names[old(self).spec_yielded()],
                        ]
                        &&& final(self).spec_yielded() == old(self).spec_yielded() + 1
                    },
                    None => {
                        &&& old(self).spec_yielded() >= names.len()
                        &&& final(self).spec_yielded() == old(self).spec_yielded()
                    },
                }
            }),
    {
        let ghost par = store@[self.parent@.handle].segments;
        let ghost names = crate::store::children_names(store@, par);
        match self.names.next(store) {
            None => None,
            Some(res) => {
                match res {
                    Ok(nm) => {
                        let ghost k0 = old(self).spec_yielded();
                        proof {
                            crate::store::lemma_child_name_exists(store@, par, k0);
                            let w = choose|w: int|
                                0 <= w < store@.len() && crate::store::is_child_of(
                                    #[trigger] store@[w],
                                    par,
                                ) && store@[w].segments.last() == names[k0];
                            let e = store@[w];
                            assert(crate::store::seg_ok(e.segments[e.segments.len() - 1]));
                            assert(crate::store::seg_ok(nm@));
                            lemma_path_segs_sepfree(nm@);
                            let target = self.parent@.segments + seq![nm@];
                            assert(segs_ci_eq(e.segments, target)) by {
                                assert(e.segments.len() == par.len() + 1);
                                assert(par.len() == self.parent@.segments.len());
                                assert forall|t: int| 0 <= t < e.segments.len() implies ci_eq(
                                    e.segments[t],
                                    target[t],
                                ) by {
                                    if t < par.len() {
                                        assert(ci_eq(
                                            e.segments.take(par.len() as int)[t],
                                            par[t],
                                        ));
                                        assert(ci_eq(par[t], self.parent@.segments[t]));
                                        crate::store::lemma_ci_eq_trans(
                                            e.segments[t],
                                            par[t],
                                            self.parent@.segments[t],
                                        );
                                    } else {
                                        assert(e.segments[t] == nm@);
                                    }
                                }
                            }
                            assert(has_key(store@, target));
                            assert(target =~= self.parent@.segments + path_segs(nm@));
                        }
                        let child = self.parent.get_subkey(store, nm.as_str());
                        match child {
                            Ok(k) => {
                                proof {
                                    assert(k@.segments =~= self.parent@.segments + seq![nm@]);
                                }
                                Some(Ok(k))
                            },
                            Err(e) => {
                                // unreachable: the enumerated child exists
                                proof {
                                    assert(false);
                                }
                                Some(Err(e))
                            },
                        }
                    },
                    Err(e) => {
                        // unreachable: the name walk reports no errors
                        proof {
                            assert(false);
                        }
                        Some(Err(e))
                    },
                }
            },
        }
    }
}

/// The identity rule: two valid handles whose logical paths name the same
/// key, up to case, always reference the same underlying key — however and
/// in whatever spelling each was opened. With their handles equal they
/// compare equal under the key equality rule.
pub proof fn lemma_key_identity(s: Seq<KeyEntryModel>, a: &RegistryKey, b: &RegistryKey)
    requires
        store_wf(s),
        a.valid(s),
        b.valid(s),
        segs_ci_eq(a@.segments, b@.segments),
    ensures
        a@.handle == b@.handle,
{
    crate::store::lemma_segs_ci_trans(s[a@.handle].segments, a@.segments, b@.segments);
    crate::store::lemma_segs_ci_sym(s[b@.handle].segments, b@.segments);
    crate::store::lemma_segs_ci_trans(s[a@.handle].segments, b@.segments, s[b@.handle].segments);
    if a@.handle != b@.handle {
        assert(!segs_ci_eq(s[a@.handle].segments, s[b@.handle].segments));
        assert(false);
    }
}

/// Resolution is deterministic: two resolutions of the same path against
/// the same store agree — they fail alike, or land on the same underlying
/// key. In particular, a key's parent (which re-resolves the path with its
/// last segment stripped) equals resolving that shortened path directly.
pub proof fn lemma_resolution_deterministic(
    s: Seq<KeyEntryModel>,
    p: Seq<char>,
    a: Result<RegistryKey, RegistryError>,
    b: Result<RegistryKey, RegistryError>,
)
    requires
        store_wf(s),
        resolves_to(s, p, a),
        resolves_to(s, p, b),
    ensures
        a is Ok <==> b is Ok,
        a is Ok ==> a.unwrap()@.handle == b.unwrap()@.handle,
{
    let ps = path_segs(p);
    let ri = root_index_of(ps[0]);
    if a is Ok && b is Err {
        assert(ri >= 0);
        let k = a.unwrap();
        assert(segs_ci_eq(s[k@.handle].segments, k@.segments));
        assert(has_key(s, seq![spec_root_name(ri)] + ps.skip(1)));
        assert(false);
    }
    if b is Ok && a is Err {
        assert(ri >= 0);
        let k = b.unwrap();
        assert(segs_ci_eq(s[k@.handle].segments, k@.segments));
        assert(has_key(s, seq![spec_root_name(ri)] + ps.skip(1)));
        assert(false);
    }
    if a is Ok && b is Ok {
        let ka = a.unwrap();
        let kb = b.unwrap();
        assert(segs_ci_eq(ka@.segments, kb@.segments)) by {
            assert(ka@.segments == kb@.segments);
        }
        lemma_key_identity(s, &ka, &kb);
    }
}

/// What resolving the path `p` against the store may produce: the exact
/// success and failure conditions of `from_path`.
pub open spec fn resolves_to(
    s: Seq<KeyEntryModel>,
    p: Seq<char>,
    r: Result<RegistryKey, RegistryError>,
) -> bool {
    let ps = path_segs(p);
    let ri = root_index_of(ps[0]);
    match r {
        Ok(k) => {
            &&& ri >= 0
            &&& k@.segments == seq![spec_root_name(ri)] + ps.skip(1)
            &&& 0 <= k@.handle < s.len()
            &&& segs_ci_eq(s[k@.handle].segments, k@.segments)
            &&& k@.path == if ps.len() == 1 {
                spec_root_name(ri)
            } else {
                spec_root_name(ri) + seq!['\\'] + p.skip(first_sep(p) + 1)
            }
        },
        Err(e) => {
            ||| (e == RegistryError::InvalidName && ri == -1)
            ||| (e == RegistryError::NotFound && ri >= 0 && !has_key(
                s,
                seq![spec_root_name(ri)] + ps.skip(1),
            ))
        },
    }
}

} // verus!
