use vstd::prelude::*;
use vstd::string::StrSliceExecFns;
use crate::errors::RegistryError;
use crate::key::clone_segments;
use crate::key::find_key_index;
use crate::key::lemma_root_valid;
use crate::key::RegistryKey;
use crate::path::path_segs;
use crate::store::has_key;
use crate::store::spec_root_name;
use crate::store::KeyEntryModel;
use crate::store::RegStore;
use crate::strutil::ci_eq;
use crate::strutil::StringExt;
use crate::strutil::format_hex;
use crate::strutil::hex_digits;
use crate::value::RegistryValueData;

verus! {

/// The canonical path of the container that holds one child key per
/// installed keyboard layout.
pub open spec fn layouts_segs() -> Seq<Seq<char>> {
    seq![spec_root_name(0)] + path_segs("SYSTEM"@) + path_segs("CurrentControlSet"@) + path_segs(
        "Control"@,
    ) + path_segs("Keyboard Layouts"@)
}

/// Opens the layout container: succeeds exactly when it exists.
pub fn get_layouts_key(store: &RegStore) -> (r: Result<RegistryKey, RegistryError>)
    requires
        store.wf(),
    ensures
        match r {
            Ok(k) => {
                &&& k.valid(store@)
                &&& k@.segments == layouts_segs()
                &&& has_key(store@, layouts_segs())
            },
            Err(e) => e == RegistryError::NotFound && !has_key(store@, layouts_segs()),
        },
{
    let root = RegistryKey::local_machine();
    proof {
        lemma_root_valid(&root, store@);
    }
    let ghost p1 = seq![spec_root_name(0)] + path_segs("SYSTEM"@);
    let ghost p2 = p1 + path_segs("CurrentControlSet"@);
    let ghost p3 = p2 + path_segs("Control"@);
    let ghost p4 = p3 + path_segs("Keyboard Layouts"@);
    proof {
        crate::path::lemma_path_segs_len("SYSTEM"@);
        crate::path::lemma_path_segs_len("CurrentControlSet"@);
        crate::path::lemma_path_segs_len("Control"@);
        crate::path::lemma_path_segs_len("Keyboard Layouts"@);
        assert(layouts_segs() =~= p4);
        assert(layouts_segs().take(p1.len() as int) =~= p1);
        assert(layouts_segs().take(p2.len() as int) =~= p2);
        assert(layouts_segs().take(p3.len() as int) =~= p3);
    }
    let k1 = match root.get_subkey(store, "SYSTEM") {
        Ok(k) => k,
        Err(e) => {
            proof {
                if has_key(store@, layouts_segs()) {
                    crate::store::lemma_has_key_prefix(store@, layouts_segs(), p1.len() as int);
                }
            }
            return Err(e);
        },
    };
    assert(k1@.segments =~= p1);
    let k2 = match k1.get_subkey(store, "CurrentControlSet") {
        Ok(k) => k,
        Err(e) => {
            proof {
                assert(k1@.segments + path_segs("CurrentControlSet"@) =~= p2);
                if has_key(store@, layouts_segs()) {
                    crate::store::lemma_has_key_prefix(store@, layouts_segs(), p2.len() as int);
                }
            }
            return Err(e);
        },
    };
    assert(k2@.segments =~= p2);
    let k3 = match k2.get_subkey(store, "Control") {
        Ok(k) => k,
        Err(e) => {
            proof {
                assert(k2@.segments + path_segs("Control"@) =~= p3);
                if has_key(store@, layouts_segs()) {
                    crate::store::lemma_has_key_prefix(store@, layouts_segs(), p3.len() as int);
                }
            }
            return Err(e);
        },
    };
    assert(k3@.segments =~= p3);
    match k3.get_subkey(store, "Keyboard Layouts") {
        Ok(k) => {
            proof {
                assert(k@.segments =~= layouts_segs());
                assert(has_key(store@, k3@.segments + path_segs("Keyboard Layouts"@)));
                assert(k3@.segments + path_segs("Keyboard Layouts"@) =~= layouts_segs());
            }
            Ok(k)
        },
        Err(e) => {
            proof {
                assert(k3@.segments + path_segs("Keyboard Layouts"@) =~= layouts_segs());
            }
            Err(e)
        },
    }
}

// ---------------------------------------------------------------------------
// The key-name namespace.
// ---------------------------------------------------------------------------

/// The `k`-th candidate identifier for a locale: high nibble reserved, low
/// 16 bits the locale, stepped through the middle bits.
pub open spec fn probe_id(locale: u16, k: int) -> int {
    0xf000_0000 + k * 0x000f_0000 + locale
}

/// The `k`-th candidate key name: the candidate identifier as 8 hex digits.
pub open spec fn probe_name(locale: u16, k: int) -> Seq<char> {
    hex_digits(probe_id(locale, k), 8)
}

/// Whether the `k`-th candidate is already a child of the layout container.
pub open spec fn probe_taken(s: Seq<KeyEntryModel>, locale: u16, k: int) -> bool {
    has_key(s, layouts_segs() + seq![probe_name(locale, k)])
}

/// The next free key name for a locale: candidates are probed in a
/// deterministic, increasing sequence, and the first one absent from the
/// layout container is returned. When a probe would step past the reserved
/// high boundary the namespace is exhausted.
pub fn get_next_layout_key(store: &RegStore, locale_id: u16) -> (r: Result<String, RegistryError>)
    requires
        store.wf(),
    ensures
        match r {
            Ok(name) => has_key(store@, layouts_segs()) && exists|k: int|
                0 <= k && name@ == #[trigger] probe_name(locale_id, k) && !probe_taken(
                    store@,
                    locale_id,
                    k,
                ) && (forall|j: int|
                    0 <= j < k ==> probe_taken(store@, locale_id, j) && probe_id(locale_id, j)
                        + 0x000f_0000 < 0xffff_0000),
            Err(e) => {
                ||| (e == RegistryError::NotFound && !has_key(store@, layouts_segs()))
                ||| (e == RegistryError::ExhaustedNamespace && has_key(store@, layouts_segs())
                    && exists|k: int|
                    0 <= k && #[trigger] probe_id(locale_id, k) + 0x000f_0000 >= 0xffff_0000 && (
                    forall|j: int| 0 <= j <= k ==> probe_taken(store@, locale_id, j)))
            },
        },
{
    let layouts_key = match get_layouts_key(store) {
        Ok(k) => k,
        Err(e) => {
            return Err(e);
        },
    };
    let mut segs = clone_segments(layouts_key.segments_vec());
    let mut id: u32 = 0xf000_0000 + (locale_id as u32);
    let ghost mut kk: int = 0;
    loop
        invariant
            store.wf(),
            has_key(store@, layouts_segs()),
            segs.deep_view() == layouts_segs(),
            0xf000_0000 <= id < 0xffff_0000,
            id as int == probe_id(locale_id, kk),
            0 <= kk,
            forall|j: int|
                0 <= j < kk ==> probe_taken(store@, locale_id, j) && probe_id(locale_id, j)
                    + 0x000f_0000 < 0xffff_0000,
        decreases 0xffff_0000 - id,
    {
        let name = format_hex(id, 8);
        proof {
            assert(name@ == probe_name(locale_id, kk));
        }
        segs.push(name.clone());
        let ghost target = segs.deep_view();
        proof {
            assert(target =~= layouts_segs() + seq![probe_name(locale_id, kk)]);
        }
        let found = find_key_index(store, &segs);
        let _last = segs.pop();
        proof {
            assert(segs.deep_view() =~= layouts_segs());
        }
        match found {
            None => {
                proof {
                    assert(!probe_taken(store@, locale_id, kk));
                }
                return Ok(name);
            },
            Some(w) => {
                proof {
                    assert(crate::store::segs_ci_eq(store@[w as int].segments, target));
                    assert(probe_taken(store@, locale_id, kk));
                }
                if id >= 0xfff0_0000 {
                    proof {
                        assert(probe_id(locale_id, kk) + 0x000f_0000 >= 0xffff_0000);
                        assert(forall|j: int| 0 <= j <= kk ==> probe_taken(store@, locale_id, j));
                    }
                    return Err(RegistryError::ExhaustedNamespace);
                }
                id = id + 0x000f_0000;
                proof {
                    kk = kk + 1;
                }
            },
        }
    }
}

// ---------------------------------------------------------------------------
// The layout-description record.
// ---------------------------------------------------------------------------

/// What a layout-description file yields: the layout's name, its display
/// text, and the locale it targets.
pub struct KlcInfo {
    pub layout_name: String,
    pub layout_text: String,
    pub locale_id: u16,
}

impl KlcInfo {
    pub fn new(layout_name: String, layout_text: String, locale_id: u16) -> (r: KlcInfo)
        ensures
            r.layout_name@ == layout_name@,
            r.layout_text@ == layout_text@,
            r.locale_id == locale_id,
    {
        KlcInfo { layout_name, layout_text, locale_id }
    }

    /// Reads the record out of the UTF-16 bytes of a layout-description
    /// file: the name and quoted text follow a `KBD` heading, the quoted
    /// locale follows a `LOCALEID` heading, and reading stops once all
    /// three are seen. This collaborator is specified at its interface
    /// boundary only: the contract promises the shape, and that a
    /// malformed file is a failure, never a panic.
    pub fn from_utf16_bytes(bytes: Vec<u8>) -> (r: Result<KlcInfo, String>)
        ensures
            r is Ok ==> r.unwrap().locale_id <= 0xffff,
    {
        let mut lines = crate::lines::Utf16Lines::new(bytes);
        let mut layout_name: Option<String> = None;
        let mut layout_text: Option<String> = None;
        let mut locale_str: Option<String> = None;
        loop
            invariant
                lines.wf(),
            decreases lines.remaining().len(),
        {
            let ghost rem0 = lines.remaining();
            let res = match lines.next() {
                None => {
                    return Err("Couldn't find info in the KLC file.".to_owned());
                },
                Some(res) => res,
            };
            proof {
                crate::utf16::lemma_first_unit(rem0, 0x0A);
            }
            let mut line = match res {
                Ok(l) => l,
                Err(_) => {
                    return Err("The KLC file holds ill-formed UTF-16.".to_owned());
                },
            };
            if line.as_str().unicode_len() == 0 {
                continue ;
            }
            if line.remove_prefix("KBD\t") {
                let l: usize = line.as_str().unicode_len();
                let tab = match crate::strutil::str_find_char(line.as_str(), '\t') {
                    Some(t) => t,
                    None => {
                        return Err("Invalid KLC file.".to_owned());
                    },
                };
                let key = line.as_str().substring_char(0, tab).to_owned();
                let name_len: usize = l - tab - 1;
                if name_len < 2 {
                    return Err("Invalid KLC file.".to_owned());
                }
                let inner = line.as_str().substring_char(tab + 2, l - 1).to_owned();
                layout_name = Some(key);
                layout_text = Some(inner);
            } else if line.remove_prefix("LOCALEID\t") {
                let l: usize = line.as_str().unicode_len();
                if l < 2 {
                    return Err("Invalid KLC file.".to_owned());
                }
                locale_str = Some(line.as_str().substring_char(1, l - 1).to_owned());
            }
            if layout_name.is_some() && layout_text.is_some() && locale_str.is_some() {
                let name = layout_name.unwrap();
                let text = layout_text.unwrap();
                let ls = locale_str.unwrap();
                let locale = match crate::strutil::parse_hex_bounded(ls.as_str(), 0xffff) {
                    Some(v) => v as u16,
                    None => {
                        return Err("Invalid locale id in the KLC file.".to_owned());
                    },
                };
                return Ok(KlcInfo::new(name, text, locale));
            }
        }
    }
}

// ---------------------------------------------------------------------------
// The identifier namespace.
// ---------------------------------------------------------------------------

/// The identifier a layout key records, if any: its "Layout Id" value read
/// as a string of 16-bit hexadecimal.
pub open spec fn layout_id_of(e: KeyEntryModel) -> Option<u16> {
    match crate::store::find_value(e.values, Some("Layout Id"@)) {
        Some(entry) => match crate::value::spec_from_data(entry.tag, entry.data) {
            Ok(m) => match m {
                crate::value::ValueModel::Text(t) => match crate::strutil::spec_parse_hex(
                    t,
                    0xffff,
                ) {
                    Some(v) => Some(v as u16),
                    None => None,
                },
                _ => None,
            },
            Err(_) => None,
        },
        None => None,
    }
}

/// One layout key whose "Layout Id" value, if present, reads back as a
/// 16-bit hexadecimal string: the shape the scan expects.
pub open spec fn readable_id(e: KeyEntryModel) -> bool {
    match crate::store::find_value(e.values, Some("Layout Id"@)) {
        Some(entry) => match crate::value::spec_from_data(entry.tag, entry.data) {
            Ok(m) => m matches crate::value::ValueModel::Text(t) && crate::strutil::spec_parse_hex(
                t,
                0xffff,
            ) is Some,
            Err(_) => false,
        },
        None => true,
    }
}

/// Every layout key's recorded identifier is readable.
pub open spec fn readable_layout_ids(s: Seq<KeyEntryModel>) -> bool {
    forall|i: int|
        0 <= i < s.len() && crate::store::is_child_of(#[trigger] s[i], layouts_segs())
            ==> readable_id(s[i])
}

/// Whether some installed layout records the identifier `v`.
pub open spec fn id_used(s: Seq<KeyEntryModel>, v: u16) -> bool {
    exists|k: int|
        0 <= k < crate::store::children_of(s, layouts_segs()).len() && layout_id_of(
            #[trigger] crate::store::children_of(s, layouts_segs())[k],
        ) == Some(v)
}

/// An opened child whose segments are the container's plus the `y0`-th
/// enumerated name references exactly the `y0`-th child entry.
proof fn lemma_child_entry(s: Seq<KeyEntryModel>, k: crate::key::KeyView, y0: int)
    requires
        crate::store::store_wf(s),
        crate::key::view_valid(k, s),
        0 <= y0 < crate::store::children_of(s, layouts_segs()).len(),
        crate::store::children_of(s, layouts_segs()).len() == crate::store::children_names(
            s,
            layouts_segs(),
        ).len(),
        k.segments == layouts_segs() + seq![
            crate::store::children_names(s, layouts_segs())[y0],
        ],
    ensures
        s[k.handle] == crate::store::children_of(s, layouts_segs())[y0],
{
    let names = crate::store::children_names(s, layouts_segs());
    let kids = crate::store::children_of(s, layouts_segs());
    crate::store::lemma_children_of_props(s, layouts_segs());
    let e = s[k.handle];
    assert(crate::store::segs_ci_eq(e.segments, k.segments));
    let ck = kids[y0];
    assert(crate::store::is_child_of(ck, layouts_segs()));
    assert(ck.segments.last() == names[y0]);
    let w = choose|w: int| 0 <= w < s.len() && s[w] == kids[y0];
    assert(crate::store::segs_ci_eq(ck.segments, k.segments)) by {
        let ll = layouts_segs().len() as int;
        assert(ck.segments.len() == ll + 1);
        assert forall|t: int| 0 <= t < ck.segments.len() implies ci_eq(
            ck.segments[t],
            k.segments[t],
        ) by {
            if t < ll {
                assert(ci_eq(ck.segments.take(ll)[t], layouts_segs()[t]));
                assert(k.segments[t] == layouts_segs()[t]);
            } else {
                assert(ck.segments[t] == names[y0]);
                assert(k.segments[t] == names[y0]);
            }
        }
    }
    if w != k.handle {
        crate::store::lemma_segs_ci_sym(e.segments, k.segments);
        crate::store::lemma_segs_ci_trans(ck.segments, k.segments, e.segments);
        assert(false);
    }
}

// ---------------------------------------------------------------------------
// The layout listing.
// ---------------------------------------------------------------------------

/// One row of the layout listing: the child key's name and its four
/// optional text values.
pub struct LayoutRow {
    pub key_name: String,
    pub id: Option<String>,
    pub name: Option<String>,
    pub display: Option<String>,
    pub file: Option<String>,
}

pub struct LayoutRowModel {
    pub key_name: Seq<char>,
    pub id: Option<Seq<char>>,
    pub name: Option<Seq<char>>,
    pub display: Option<Seq<char>>,
    pub file: Option<Seq<char>>,
}

impl View for LayoutRow {
    type V = LayoutRowModel;

    open spec fn view(&self) -> LayoutRowModel {
        LayoutRowModel {
            key_name: self.key_name@,
            id: crate::value::opt_string_view(self.id),
            name: crate::value::opt_string_view(self.name),
            display: crate::value::opt_string_view(self.display),
            file: crate::value::opt_string_view(self.file),
        }
    }
}

pub open spec fn rows_view(v: Seq<LayoutRow>) -> Seq<LayoutRowModel> {
    Seq::new(v.len(), |i: int| v[i]@)
}

/// The text recorded under a value name, where present and textual.
pub open spec fn text_value_of(e: KeyEntryModel, nm: Seq<char>) -> Option<Seq<char>> {
    match crate::store::find_value(e.values, Some(nm)) {
        Some(entry) => match crate::value::spec_from_data(entry.tag, entry.data) {
            Ok(m) => match m {
                crate::value::ValueModel::Text(t) => Some(t),
                _ => None,
            },
            Err(_) => None,
        },
        None => None,
    }
}

/// The row one layout key contributes.
pub open spec fn row_of(e: KeyEntryModel) -> LayoutRowModel {
    LayoutRowModel {
        key_name: e.segments.last(),
        id: text_value_of(e, "Layout Id"@),
        name: text_value_of(e, "Layout Text"@),
        display: text_value_of(e, "Layout Display Name"@),
        file: text_value_of(e, "Layout File"@),
    }
}

/// Whether a layout key is listed: always when everything is asked for,
/// otherwise only custom layouts, whose key names read as numbers at or
/// above 0x00800000.
pub open spec fn row_shown(e: KeyEntryModel, all: bool) -> bool {
    all || (crate::strutil::spec_parse_hex(e.segments.last(), 0xffff_ffff) matches Some(v) && v
        >= 0x0080_0000)
}

/// The rows of the listing: the shown children, in store order.
pub open spec fn rows_model(kids: Seq<KeyEntryModel>, all: bool) -> Seq<LayoutRowModel>
    decreases kids.len(),
{
    if kids.len() == 0 {
        Seq::empty()
    } else {
        rows_model(kids.drop_last(), all) + if row_shown(kids.last(), all) {
            seq![row_of(kids.last())]
        } else {
            Seq::empty()
        }
    }
}

/// One layout key in the shape the listing can read: a hexadecimal key
/// name, and each of the four listed values, where present, textual.
pub open spec fn listable_child(e: KeyEntryModel) -> bool {
    &&& crate::strutil::spec_parse_hex(e.segments.last(), 0xffff_ffff) is Some
    &&& text_or_absent(e, "Layout Id"@)
    &&& text_or_absent(e, "Layout Text"@)
    &&& text_or_absent(e, "Layout Display Name"@)
    &&& text_or_absent(e, "Layout File"@)
}

pub open spec fn text_or_absent(e: KeyEntryModel, nm: Seq<char>) -> bool {
    match crate::store::find_value(e.values, Some(nm)) {
        Some(entry) => match crate::value::spec_from_data(entry.tag, entry.data) {
            Ok(m) => m matches crate::value::ValueModel::Text(_),
            Err(_) => false,
        },
        None => true,
    }
}

pub open spec fn listable(s: Seq<KeyEntryModel>) -> bool {
    forall|i: int|
        0 <= i < s.len() && crate::store::is_child_of(#[trigger] s[i], layouts_segs())
            ==> listable_child(s[i])
}

/// Gathers the listing: one row per shown child of the layout container,
/// in store order, and how many children the custom-only view skipped.
pub fn list_layout_rows(store: &RegStore, all: bool) -> (r: Result<
    (Vec<LayoutRow>, usize),
    RegistryError,
>)
    requires
        store.wf(),
        listable(store@),
    ensures
        match r {
            Ok(p) => {
                &&& has_key(store@, layouts_segs())
                &&& rows_view(p.0@) == rows_model(
                    crate::store::children_of(store@, layouts_segs()),
                    all,
                )
                &&& p.1 as int == crate::store::children_of(store@, layouts_segs()).len()
                    - rows_model(crate::store::children_of(store@, layouts_segs()), all).len()
            },
            Err(e) => e == RegistryError::NotFound && !has_key(store@, layouts_segs()),
        },
{
    let layouts_key = match get_layouts_key(store) {
        Ok(k) => k,
        Err(e) => {
            return Err(e);
        },
    };
    let ghost kids = crate::store::children_of(store@, layouts_segs());
    proof {
        crate::store::lemma_children_ci(
            store@,
            store@[layouts_key@.handle].segments,
            layouts_segs(),
        );
        crate::store::lemma_children_of_props(store@, layouts_segs());
    }
    let mut rows: Vec<LayoutRow> = Vec::new();
    let mut skipped: usize = 0;
    let nkeys: usize = store.keys.len();
    let mut it = layouts_key.iter_children();
    let mut done: bool = false;
    while !done
        invariant
            store.wf(),
            listable(store@),
            has_key(store@, layouts_segs()),
            layouts_key.valid(store@),
            layouts_key@.segments == layouts_segs(),
            it.cursor_ok(),
            it.spec_parent() == layouts_key@,
            kids == crate::store::children_of(store@, layouts_segs()),
            nkeys as int == store@.len(),
            kids.len() <= nkeys,
            skipped <= it.spec_yielded(),
            0 <= it.spec_yielded() <= kids.len(),
            rows_view(rows@) == rows_model(kids.take(it.spec_yielded()), all),
            skipped as int == it.spec_yielded() - rows_model(kids.take(it.spec_yielded()), all).len(),
            done ==> it.spec_yielded() == kids.len(),
        decreases kids.len() - it.spec_yielded(), if done {
            0int
        } else {
            1int
        },
    {
        let ghost y0 = it.spec_yielded();
        proof {
            crate::store::lemma_children_ci(
                store@,
                store@[layouts_key@.handle].segments,
                layouts_segs(),
            );
            crate::store::lemma_children_of_props(store@, layouts_segs());
        }
        match it.next(store) {
            None => {
                done = true;
            },
            Some(res) => {
                match res {
                    Ok(child) => {
                        proof {
                            lemma_child_entry(store@, child@, y0);
                            assert(store@[child@.handle] == kids[y0]);
                            assert(listable_child(kids[y0]));
                            assert(kids.take(y0 + 1).drop_last() =~= kids.take(y0));
                            assert(kids.take(y0 + 1).last() == kids[y0]);
                        }
                        let segs = child.segments_vec();
                        let sl: usize = segs.len();
                        let key_name = segs[sl - 1].clone();
                        proof {
                            assert(key_name@ == kids[y0].segments.last());
                        }
                        let shown: bool = if all {
                            true
                        } else {
                            match crate::strutil::parse_hex_bounded(key_name.as_str(), 0xffff_ffff) {
                                Some(v) => v >= 0x0080_0000,
                                None => {
                                    proof {
                                        assert(false);
                                    }
                                    false
                                },
                            }
                        };
                        proof {
                            assert(shown == row_shown(kids[y0], all));
                        }
                        if shown {
                            let id = read_text_value(store, &child, "Layout Id");
                            let name = read_text_value(store, &child, "Layout Text");
                            let display = read_text_value(store, &child, "Layout Display Name");
                            let file = read_text_value(store, &child, "Layout File");
                            let ghost rows0 = rows_view(rows@);
                            let row = LayoutRow { key_name, id, name, display, file };
                            proof {
                                assert(row@ == row_of(kids[y0]));
                            }
                            rows.push(row);
                            proof {
                                assert(rows_view(rows@) =~= rows0.push(row_of(kids[y0])));
                                assert(rows_view(rows@) =~= rows_model(kids.take(y0 + 1), all));
                            }
                        } else {
                            skipped += 1;
                            proof {
                                assert(rows_view(rows@) =~= rows_model(kids.take(y0 + 1), all));
                            }
                        }
                    },
                    Err(e) => {
                        proof {
                            assert(false);
                        }
                        return Err(e);
                    },
                }
            },
        }
    }
    proof {
        assert(kids.take(kids.len() as int) =~= kids);
    }
    Ok((rows, skipped))
}

/// Reads one of the listing's text values from a child, where present.
fn read_text_value(store: &RegStore, child: &RegistryKey, nm: &str) -> (r: Option<String>)
    requires
        store.wf(),
        child.valid(store@),
        text_or_absent(store@[child@.handle], nm@),
    ensures
        crate::value::opt_string_view(r) == text_value_of(store@[child@.handle], nm@),
{
    match child.try_get_value(store, Some(nm)) {
        Ok(opt) => {
            match opt {
                None => None,
                Some(value) => {
                    match value.get_value() {
                        RegistryValueData::String(s) => Some(s.clone()),
                        _ => {
                            proof {
                                assert(false);
                            }
                            None
                        },
                    }
                },
            }
        },
        Err(_) => {
            proof {
                assert(false);
            }
            None
        },
    }
}

/// The next free layout identifier: every child of the layout container is
/// scanned for its recorded identifier, identifiers inside the assignable
/// range mark a slot used, and the lowest free slot wins. Exhaustion means
/// every slot of the range is recorded by some layout.
pub fn get_next_layout_id(store: &RegStore) -> (r: Result<u16, RegistryError>)
    requires
        store.wf(),
        readable_layout_ids(store@),
    ensures
        match r {
            Ok(v) => {
                &&& has_key(store@, layouts_segs())
                &&& 0x0F00 <= v < 0xF000
                &&& !id_used(store@, v)
                &&& forall|w: u16| 0x0F00 <= w < v ==> id_used(store@, w)
            },
            Err(e) => {
                ||| (e == RegistryError::NotFound && !has_key(store@, layouts_segs()))
                ||| (e == RegistryError::ExhaustedNamespace && has_key(store@, layouts_segs())
                    && forall|w: u16| 0x0F00 <= w < 0xF000 ==> id_used(store@, w))
            },
        },
{
    let layouts_key = match get_layouts_key(store) {
        Ok(k) => k,
        Err(e) => {
            return Err(e);
        },
    };
    // The marker array covering the assignable identifier range.
    let slots: usize = 0xF000 - 0x0F00;
    let mut used: Vec<bool> = Vec::new();
    let mut i: usize = 0;
    while i < slots
        invariant
            i <= slots,
            used@.len() == i,
            forall|j: int| 0 <= j < i ==> !used@[j],
        decreases slots - i,
    {
        used.push(false);
        i += 1;
    }
    let ghost kids = crate::store::children_of(store@, layouts_segs());
    proof {
        crate::store::lemma_children_ci(
            store@,
            store@[layouts_key@.handle].segments,
            layouts_segs(),
        );
        crate::store::lemma_children_of_props(store@, layouts_segs());
    }
    let mut it = layouts_key.iter_children();
    let mut done: bool = false;
    while !done
        invariant
            store.wf(),
            readable_layout_ids(store@),
            has_key(store@, layouts_segs()),
            layouts_key.valid(store@),
            layouts_key@.segments == layouts_segs(),
            it.cursor_ok(),
            it.spec_parent() == layouts_key@,
            kids == crate::store::children_of(store@, layouts_segs()),
            0 <= it.spec_yielded() <= kids.len(),
            used@.len() == slots,
            slots == 0xF000 - 0x0F00,
            forall|v: u16|
                0x0F00 <= v < 0xF000 ==> ((#[trigger] used@[v - 0x0F00]) <==> exists|k: int|
                    0 <= k < it.spec_yielded() && layout_id_of(#[trigger] kids[k]) == Some(v)),
            done ==> it.spec_yielded() == kids.len(),
        decreases kids.len() - it.spec_yielded(), if done {
            0int
        } else {
            1int
        },
    {
        let ghost y0 = it.spec_yielded();
        let ghost names = crate::store::children_names(store@, layouts_segs());
        proof {
            crate::store::lemma_children_ci(
                store@,
                store@[layouts_key@.handle].segments,
                layouts_segs(),
            );
            crate::store::lemma_children_of_props(store@, layouts_segs());
        }
        match it.next(store) {
            None => {
                proof {
                    assert(it.spec_yielded() >= names.len());
                    assert(kids.len() == names.len());
                }
                done = true;
            },
            Some(res) => {
                match res {
                    Ok(child) => {
                        proof {
                            // The opened child is exactly the y0-th child entry.
                            assert(child@.segments == layouts_segs() + seq![names[y0]]);
                            let e = store@[child@.handle];
                            assert(crate::store::segs_ci_eq(e.segments, child@.segments));
                            let ck = kids[y0];
                            assert(crate::store::is_child_of(ck, layouts_segs()));
                            assert(ck.segments.last() == names[y0]);
                            let w = choose|w: int| 0 <= w < store@.len() && store@[w] == kids[y0];
                            assert(crate::store::segs_ci_eq(ck.segments, child@.segments)) by {
                                let ll = layouts_segs().len() as int;
                                assert(ck.segments.len() == ll + 1);
                                assert forall|t: int| 0 <= t < ck.segments.len() implies ci_eq(
                                    ck.segments[t],
                                    child@.segments[t],
                                ) by {
                                    if t < ll {
                                        assert(ci_eq(
                                            ck.segments.take(ll)[t],
                                            layouts_segs()[t],
                                        ));
                                        assert(child@.segments[t] == layouts_segs()[t]);
                                    } else {
                                        assert(ck.segments[t] == names[y0]);
                                        assert(child@.segments[t] == names[y0]);
                                    }
                                }
                            }
                            if w != child@.handle {
                                crate::store::lemma_segs_ci_sym(e.segments, child@.segments);
                                crate::store::lemma_segs_ci_trans(
                                    ck.segments,
                                    child@.segments,
                                    e.segments,
                                );
                                assert(false);
                            }
                            assert(e == kids[y0]);
                            assert(readable_id(kids[y0]));
                        }
                        match child.try_get_value(store, Some("Layout Id")) {
                            Ok(opt) => {
                                match opt {
                                    None => {
                                        proof {
                                            assert(layout_id_of(kids[y0]) is None);
                                            assert forall|v: u16| 0x0F00 <= v < 0xF000 implies ((
                                            #[trigger] used@[v - 0x0F00]) <==> exists|k: int|
                                                0 <= k < y0 + 1 && layout_id_of(
                                                    #[trigger] kids[k],
                                                ) == Some(v)) by {
                                                if exists|k: int|
                                                    0 <= k < y0 + 1 && layout_id_of(
                                                        #[trigger] kids[k],
                                                    ) == Some(v) {
                                                    let k = choose|k: int|
                                                        0 <= k < y0 + 1 && layout_id_of(
                                                            #[trigger] kids[k],
                                                        ) == Some(v);
                                                    assert(k < y0);
                                                }
                                            }
                                        }
                                    },
                                    Some(value) => {
                                        let sv = match value.get_value() {
                                            RegistryValueData::String(s) => s.as_str(),
                                            _ => {
                                                // unreachable: the requires pins the value to text
                                                proof {
                                                    assert(false);
                                                }
                                                ""
                                            },
                                        };
                                        match crate::strutil::parse_hex_bounded(sv, 0xffff) {
                                            Some(v) => {
                                                proof {
                                                    assert(layout_id_of(kids[y0]) == Some(
                                                        v as u16,
                                                    ));
                                                }
                                                if 0x0F00 <= v && v < 0xF000 {
                                                    let slot: usize = (v - 0x0F00) as usize;
                                                    let ghost used0 = used@;
                                                    used[slot] = true;
                                                    proof {
                                                        assert(used@ =~= used0.update(
                                                            slot as int,
                                                            true,
                                                        ));
                                                        lemma_mark_invariant(
                                                            used0,
                                                            used@,
                                                            kids,
                                                            y0,
                                                            v as u16,
                                                        );
                                                    }
                                                } else {
                                                    proof {
                                                        lemma_skip_invariant(
                                                            used@,
                                                            kids,
                                                            y0,
                                                            layout_id_of(kids[y0]),
                                                        );
                                                    }
                                                }
                                            },
                                            None => {
                                                proof {
                                                    assert(false);
                                                }
                                            },
                                        }
                                    },
                                }
                            },
                            Err(e) => {
                                proof {
                                    assert(false);
                                }
                                return Err(e);
                            },
                        }
                    },
                    Err(e) => {
                        proof {
                            assert(false);
                        }
                        return Err(e);
                    },
                }
            },
        }
    }
    proof {
        assert(it.spec_yielded() == kids.len());
        assert forall|v: u16| 0x0F00 <= v < 0xF000 implies ((#[trigger] used@[v - 0x0F00])
            <==> id_used(store@, v)) by {
            assert(kids == crate::store::children_of(store@, layouts_segs()));
        }
    }
    // Linear scan from the low end: the first free slot wins.
    let mut idx: usize = 0;
    while idx < slots
        invariant
            has_key(store@, layouts_segs()),
            slots == 0xF000 - 0x0F00,
            used@.len() == slots,
            idx <= slots,
            forall|v: u16|
                0x0F00 <= v < 0xF000 ==> ((#[trigger] used@[v - 0x0F00]) <==> id_used(store@, v)),
            forall|w: u16| 0x0F00 <= w < 0x0F00 + idx ==> id_used(store@, w),
        decreases slots - idx,
    {
        if !used[idx] {
            let v: u16 = (0x0F00 + idx) as u16;
            proof {
                assert(v - 0x0F00 == idx as int);
                assert(!id_used(store@, v));
            }
            return Ok(v);
        }
        proof {
            let w: u16 = (0x0F00 + idx) as u16;
            assert(w - 0x0F00 == idx as int);
            assert(used@[w - 0x0F00]);
            assert(id_used(store@, w));
        }
        idx += 1;
    }
    proof {
        assert forall|w: u16| 0x0F00 <= w < 0xF000 implies id_used(store@, w) by {
            assert(used@[w - 0x0F00]);
        }
    }
    Err(RegistryError::ExhaustedNamespace)
}

/// Marking the slot of the identifier the `y0`-th child records keeps the
/// marker array in step with the scanned prefix.
proof fn lemma_mark_invariant(
    used0: Seq<bool>,
    used1: Seq<bool>,
    kids: Seq<KeyEntryModel>,
    y0: int,
    v: u16,
)
    requires
        0x0F00 <= v < 0xF000,
        used0.len() == 0xF000 - 0x0F00,
        used1 == used0.update(v - 0x0F00, true),
        0 <= y0 < kids.len(),
        layout_id_of(kids[y0]) == Some(v),
        forall|w: u16|
            0x0F00 <= w < 0xF000 ==> ((#[trigger] used0[w - 0x0F00]) <==> exists|k: int|
                0 <= k < y0 && layout_id_of(#[trigger] kids[k]) == Some(w)),
    ensures
        forall|w: u16|
            0x0F00 <= w < 0xF000 ==> ((#[trigger] used1[w - 0x0F00]) <==> exists|k: int|
                0 <= k < y0 + 1 && layout_id_of(#[trigger] kids[k]) == Some(w)),
{
    assert forall|w: u16| 0x0F00 <= w < 0xF000 implies ((#[trigger] used1[w - 0x0F00]) <==> exists|
        k: int,
    | 0 <= k < y0 + 1 && layout_id_of(#[trigger] kids[k]) == Some(w)) by {
        if w == v {
            assert(used1[w - 0x0F00]);
            assert(layout_id_of(kids[y0]) == Some(w));
        } else {
            assert(used1[w - 0x0F00] == used0[w - 0x0F00]);
            if exists|k: int| 0 <= k < y0 + 1 && layout_id_of(#[trigger] kids[k]) == Some(w) {
                let k = choose|k: int|
                    0 <= k < y0 + 1 && layout_id_of(#[trigger] kids[k]) == Some(w);
                assert(k < y0);
            }
        }
    }
}

/// A child whose identifier is absent or out of the assignable range marks
/// nothing.
proof fn lemma_skip_invariant(
    used: Seq<bool>,
    kids: Seq<KeyEntryModel>,
    y0: int,
    id: Option<u16>,
)
    requires
        used.len() == 0xF000 - 0x0F00,
        0 <= y0 < kids.len(),
        layout_id_of(kids[y0]) == id,
        id is Some ==> !(0x0F00 <= id.unwrap() < 0xF000),
        forall|w: u16|
            0x0F00 <= w < 0xF000 ==> ((#[trigger] used[w - 0x0F00]) <==> exists|k: int|
                0 <= k < y0 && layout_id_of(#[trigger] kids[k]) == Some(w)),
    ensures
        forall|w: u16|
            0x0F00 <= w < 0xF000 ==> ((#[trigger] used[w - 0x0F00]) <==> exists|k: int|
                0 <= k < y0 + 1 && layout_id_of(#[trigger] kids[k]) == Some(w)),
{
    assert forall|w: u16| 0x0F00 <= w < 0xF000 implies ((#[trigger] used[w - 0x0F00]) <==> exists|
        k: int,
    | 0 <= k < y0 + 1 && layout_id_of(#[trigger] kids[k]) == Some(w)) by {
        if exists|k: int| 0 <= k < y0 + 1 && layout_id_of(#[trigger] kids[k]) == Some(w) {
            let k = choose|k: int| 0 <= k < y0 + 1 && layout_id_of(#[trigger] kids[k]) == Some(w);
            assert(k < y0);
        }
    }
}

} // verus!
