//! Read paths lookup: select, from a directory listing, the
//! `*.gitignore` template files whose stems match a wanted list of names,
//! case-insensitively.
//!
//! The caller hands over the directory's entries (name and whether the
//! entry is a directory) and the wanted names. Each wanted name matches
//! at most one file: the first one encountered in directory order.

use vstd::prelude::*;

verus! {

use vstd::string::StrSliceExecFns;
use vstd::string::StringExecFns;
use crate::markers::str_eq;
use crate::generator::{lower, to_lower};

/// One directory entry: its file name and whether it is a directory.
pub struct EntryInfo {
    pub name: String,
    pub is_dir: bool,
}

/// The mathematical image of one directory entry.
pub struct EntryModel {
    pub name: Seq<char>,
    pub is_dir: bool,
}

impl View for EntryInfo {
    type V = EntryModel;

    open spec fn view(&self) -> EntryModel {
        EntryModel { name: self.name@, is_dir: self.is_dir }
    }
}

/// The models of a directory listing.
pub open spec fn entries_view(es: &Vec<EntryInfo>) -> Seq<EntryModel> {
    Seq::new(es@.len(), |i: int| es@[i]@)
}

/// The position of the last `.` of a file name that can separate a stem
/// from an extension: the greatest position after the first character,
/// so that a leading dot alone (a hidden file) separates nothing.
pub open spec fn last_dot(s: Seq<char>) -> Option<int>
    decreases s.len(),
{
    if s.len() <= 1 {
        None
    } else if s[s.len() - 1] == '.' {
        Some(s.len() - 1)
    } else {
        last_dot(s.subrange(0, s.len() - 1))
    }
}

/// The file stem of a file name: what precedes the last separating dot,
/// or the whole name when there is none.
pub open spec fn stem_of(s: Seq<char>) -> Seq<char> {
    match last_dot(s) {
        None => s,
        Some(i) => s.subrange(0, i),
    }
}

/// The extension of a file name: what follows the last separating dot,
/// if any.
pub open spec fn ext_of(s: Seq<char>) -> Option<Seq<char>> {
    match last_dot(s) {
        None => None,
        Some(i) => Some(s.subrange(i + 1, s.len() as int)),
    }
}

/// `last_dot` names the greatest dot position after the first character,
/// and `None` exactly when no such position holds a dot.
pub proof fn lemma_last_dot(s: Seq<char>)
    ensures
        match last_dot(s) {
            Some(i) => {
                &&& 1 <= i < s.len()
                &&& s[i] == '.'
                &&& forall|k: int| i < k < s.len() ==> s[k] != '.'
            },
            None => forall|k: int| 1 <= k < s.len() ==> s[k] != '.',
        },
    decreases s.len(),
{
    if s.len() > 1 && s[s.len() - 1] != '.' {
        let sub = s.subrange(0, s.len() - 1);
        lemma_last_dot(sub);
        assert(forall|k: int| 0 <= k < sub.len() ==> #[trigger] sub[k] == s[k]);
        match last_dot(sub) {
            Some(i) => {
                assert(sub[i] == s[i]);
                assert forall|k: int| i < k < s.len() implies s[k] != '.' by {
                    if k < s.len() - 1 {
                        assert(sub[k] != '.');
                        assert(sub[k] == s[k]);
                    }
                }
            },
            None => {
                assert forall|k: int| 1 <= k < s.len() implies s[k] != '.' by {
                    if k < s.len() - 1 {
                        assert(sub[k] != '.');
                        assert(sub[k] == s[k]);
                    }
                }
            },
        }
    }
}

/// Split a file name into its stem and its extension.
pub fn split_file_name(name: &str) -> (r: (String, Option<String>))
    ensures
        r.0@ == stem_of(name@),
        match r.1 {
            Some(e) => ext_of(name@) == Some(e@),
            None => ext_of(name@) is None,
        },
{
    let len = name.unicode_len();
    let mut j: usize = len;
    while j > 1
        invariant
            len == name@.len(),
            0 <= j <= len,
            j < len ==> j >= 1,
            forall|k: int| j <= k < len ==> name@[k] != '.',
        decreases j,
    {
        if name.get_char(j - 1) == '.' {
            proof {
                lemma_last_dot(name@);
                match last_dot(name@) {
                    Some(i) => {
                        if i < j - 1 {
                            assert(name@[j - 1] != '.');
                        } else if i > j - 1 {
                            assert(name@[i] != '.');
                        }
                    },
                    None => {
                        assert(name@[j - 1] != '.');
                    },
                }
                assert(last_dot(name@) == Some(j - 1));
            }
            let stem = String::from_str(name.substring_char(0, j - 1));
            let ext = String::from_str(name.substring_char(j, len));
            return (stem, Some(ext));
        }
        j = j - 1;
    }
    proof {
        lemma_last_dot(name@);
        match last_dot(name@) {
            Some(i) => {
                assert(name@[i] != '.');
            },
            None => {},
        }
    }
    (String::from_str(name), None)
}

/// The position of the first wanted name whose lower-cased form is
/// `stem_lower`.
pub open spec fn find_wanted(with: Seq<Seq<char>>, stem_lower: Seq<char>) -> Option<int>
    decreases with.len(),
{
    if with.len() == 0 {
        None
    } else if lower(with[0]) == stem_lower {
        Some(0int)
    } else {
        match find_wanted(with.subrange(1, with.len() as int), stem_lower) {
            None => None,
            Some(i) => Some(i + 1),
        }
    }
}

/// `find_wanted` returns the first matching position, and `None` exactly
/// when no wanted name matches.
pub proof fn lemma_find_wanted(with: Seq<Seq<char>>, stem_lower: Seq<char>)
    ensures
        match find_wanted(with, stem_lower) {
            Some(i) => {
                &&& 0 <= i < with.len()
                &&& lower(with[i]) == stem_lower
                &&& forall|k: int| 0 <= k < i ==> lower(#[trigger] with[k]) != stem_lower
            },
            None => forall|k: int| 0 <= k < with.len() ==> lower(#[trigger] with[k]) != stem_lower,
        },
    decreases with.len(),
{
    if with.len() > 0 && lower(with[0]) != stem_lower {
        let sub = with.subrange(1, with.len() as int);
        lemma_find_wanted(sub, stem_lower);
        assert(forall|k: int| 0 <= k < sub.len() ==> #[trigger] sub[k] == with[k + 1]);
        match find_wanted(sub, stem_lower) {
            Some(i) => {
                assert(sub[i] == with[i + 1]);
                assert forall|k: int|
                    0 <= k < i + 1 implies lower(#[trigger] with[k]) != stem_lower by {
                    if k >= 1 {
                        assert(sub[k - 1] == with[k]);
                    }
                }
            },
            None => {
                assert forall|k: int|
                    0 <= k < with.len() implies lower(#[trigger] with[k]) != stem_lower by {
                    if k >= 1 {
                        assert(sub[k - 1] == with[k]);
                    }
                }
            },
        }
    }
}

/// One selection step: a non-directory entry with the `gitignore`
/// extension whose lower-cased stem matches a wanted name claims that
/// name (the first match) and is selected.
pub open spec fn validate_step(with: Seq<Seq<char>>, e: EntryModel) -> (bool, Seq<Seq<char>>) {
    if !e.is_dir && ext_of(e.name) == Some("gitignore"@) && find_wanted(
        with,
        lower(stem_of(e.name)),
    ) is Some {
        (true, with.remove(find_wanted(with, lower(stem_of(e.name)))->0))
    } else {
        (false, with)
    }
}

/// The names of the selected entries, in directory order, each wanted
/// name claimed by at most one entry.
pub open spec fn run_lookup(entries: Seq<EntryModel>, with: Seq<Seq<char>>) -> Seq<Seq<char>>
    decreases entries.len(),
{
    if entries.len() == 0 {
        Seq::<Seq<char>>::empty()
    } else {
        let stepped = validate_step(with, entries[0]);
        let rest = run_lookup(entries.subrange(1, entries.len() as int), stepped.1);
        if stepped.0 {
            seq![entries[0].name] + rest
        } else {
            rest
        }
    }
}

/// Whether the entry is a matching template file, claiming its wanted
/// name from `with` when it is.
pub fn validate_path(name: &str, is_dir: bool, with: &mut Vec<String>) -> (r: bool)
    ensures
        ({
            let e = EntryModel { name: name@, is_dir: is_dir };
            let stepped = validate_step(old(with).deep_view(), e);
            r == stepped.0 && final(with).deep_view() == stepped.1
        }),
{
    let ghost e = EntryModel { name: name@, is_dir: is_dir };
    let ghost wv = with.deep_view();
    if is_dir {
        return false;
    }
    let (stem, ext_opt) = split_file_name(name);
    let ext_matches = match ext_opt {
        Some(ext) => str_eq(ext.as_str(), "gitignore"),
        None => false,
    };
    if !ext_matches {
        return false;
    }
    let stem_lower = to_lower(stem.as_str());
    let mut i: usize = 0;
    while i < with.len()
        invariant
            wv == with.deep_view(),
            with@ == old(with)@,
            e.name == name@,
            e.is_dir == is_dir,
            !is_dir,
            ext_of(e.name) == Some("gitignore"@),
            stem_lower@ == lower(stem_of(e.name)),
            0 <= i <= with@.len(),
            forall|k: int| 0 <= k < i ==> lower((#[trigger] with@[k])@) != stem_lower@,
        decreases with@.len() - i,
    {
        let w_lower = to_lower(with[i].as_str());
        if str_eq(w_lower.as_str(), stem_lower.as_str()) {
            proof {
                lemma_find_wanted(wv, stem_lower@);
                assert(with.deep_view()[i as int] == with@[i as int]@);
                assert forall|k: int|
                    0 <= k < i implies lower(#[trigger] wv[k]) != stem_lower@ by {
                    assert(wv[k] == with@[k]@);
                }
                assert(find_wanted(wv, stem_lower@) == Some(i as int)) by {
                    match find_wanted(wv, stem_lower@) {
                        Some(fi) => {
                            if fi < i {
                                assert(lower(wv[fi]) != stem_lower@);
                            } else if fi > i {
                                assert(lower(wv[i as int]) != stem_lower@);
                            }
                        },
                        None => {
                            assert(lower(wv[i as int]) != stem_lower@);
                        },
                    }
                }
            }
            with.remove(i);
            proof {
                assert(final(with)@ =~= old(with)@.remove(i as int));
                assert forall|k: int|
                    0 <= k < with.deep_view().len() implies #[trigger] with.deep_view()[k]
                    == wv.remove(i as int)[k] by {
                    assert(with.deep_view()[k] == with@[k]@);
                    if k < i {
                        assert(with@[k] == old(with)@[k]);
                    } else {
                        assert(with@[k] == old(with)@[k + 1]);
                    }
                }
                assert(with.deep_view() =~= wv.remove(i as int));
            }
            return true;
        }
        i = i + 1;
    }
    proof {
        lemma_find_wanted(wv, stem_lower@);
        assert forall|k: int| 0 <= k < wv.len() implies lower(#[trigger] wv[k]) != stem_lower@ by {
            assert(wv[k] == with@[k]@);
        }
        match find_wanted(wv, stem_lower@) {
            Some(fi) => {
                assert(lower(wv[fi]) != stem_lower@);
            },
            None => {},
        }
    }
    false
}

/// Select, from the directory entries in order, the template files whose
/// lower-cased stems match wanted names; each wanted name matches at
/// most one file, the first encountered. Returns the selected file
/// names, in directory order.
pub fn lookup(entries: &Vec<EntryInfo>, with: &Vec<String>) -> (r: Vec<String>)
    ensures
        r.deep_view() == run_lookup(entries_view(entries), with.deep_view()),
{
    let ghost ev = entries_view(entries);
    let mut with_left: Vec<String> = Vec::new();
    let mut i: usize = 0;
    while i < with.len()
        invariant
            0 <= i <= with@.len(),
            with_left@.len() == i,
            forall|k: int| 0 <= k < i ==> (#[trigger] with_left@[k])@ == with@[k]@,
        decreases with@.len() - i,
    {
        with_left.push(with[i].clone());
        i = i + 1;
    }
    proof {
        assert forall|k: int|
            0 <= k < with_left.deep_view().len() implies #[trigger] with_left.deep_view()[k]
            == with.deep_view()[k] by {
            assert(with_left.deep_view()[k] == with_left@[k]@);
            assert(with.deep_view()[k] == with@[k]@);
        }
        assert(with_left.deep_view() =~= with.deep_view());
    }
    let mut selected: Vec<String> = Vec::new();
    proof {
        assert(ev.subrange(0, ev.len() as int) =~= ev);
        assert(Seq::<Seq<char>>::empty() + run_lookup(ev, with.deep_view()) =~= run_lookup(
            ev,
            with.deep_view(),
        ));
    }
    let mut t: usize = 0;
    while t < entries.len()
        invariant
            0 <= t <= entries@.len(),
            ev == entries_view(entries),
            ev.len() == entries@.len(),
            run_lookup(ev, with.deep_view()) == selected.deep_view() + run_lookup(
                ev.subrange(t as int, ev.len() as int),
                with_left.deep_view(),
            ),
        decreases entries@.len() - t,
    {
        let ghost pre_sel = selected.deep_view();
        let ghost pre_with = with_left.deep_view();
        let ghost sub_t = ev.subrange(t as int, ev.len() as int);
        let entry = &entries[t];
        let sel = validate_path(entry.name.as_str(), entry.is_dir, &mut with_left);
        if sel {
            selected.push(entry.name.clone());
        }
        t = t + 1;
        proof {
            assert(entry@ == ev[t as int - 1]);
            assert(sub_t[0] == ev[t as int - 1]);
            assert(sub_t.subrange(1, sub_t.len() as int) =~= ev.subrange(
                t as int,
                ev.len() as int,
            ));
            if sel {
                assert forall|k: int|
                    0 <= k < selected.deep_view().len() implies #[trigger] selected.deep_view()[k]
                    == (pre_sel + seq![ev[t as int - 1].name])[k] by {
                    assert(selected.deep_view()[k] == selected@[k]@);
                    if k < pre_sel.len() {
                        assert(selected.deep_view()[k] == pre_sel[k]);
                    }
                }
                assert(selected.deep_view() =~= pre_sel + seq![ev[t as int - 1].name]);
                assert(pre_sel + seq![ev[t as int - 1].name] + run_lookup(
                    ev.subrange(t as int, ev.len() as int),
                    with_left.deep_view(),
                ) =~= pre_sel + (seq![ev[t as int - 1].name] + run_lookup(
                    ev.subrange(t as int, ev.len() as int),
                    with_left.deep_view(),
                )));
            }
        }
    }
    proof {
        assert(ev.subrange(t as int, ev.len() as int).len() == 0);
        assert(selected.deep_view() + Seq::<Seq<char>>::empty() =~= selected.deep_view());
    }
    selected
}

} // verus!
