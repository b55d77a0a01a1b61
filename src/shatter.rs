//! Shattering countries: every owned province becomes a country of its
//! own, made from a copy of its owner's country and history files.

use vstd::prelude::*;
use crate::province::{id_and_name, province_id_and_name};
use crate::tags::{clear_events, get_next_valid_tag, keeps, tag_for_num, tag_free, TAG_LIMIT};
use crate::text::{concat, starts_with};
use crate::value::{decimal, lookup, upsert, EntryModel, Eu4Table, Eu4Value, ValueModel};

verus! {

/// A data file: its name and its parsed table.
pub struct FileTable {
    pub file_name: String,
    pub data: Eu4Table,
}

pub struct FileModel {
    pub name: Seq<char>,
    pub data: Seq<EntryModel>,
}

impl FileTable {
    pub open spec fn view(&self) -> FileModel {
        FileModel { name: self.file_name@, data: self.data@ }
    }
}

impl Clone for FileTable {
    fn clone(&self) -> (r: Self)
        ensures
            r@ == self@,
    {
        FileTable { file_name: self.file_name.clone(), data: self.data.clone() }
    }
}

pub open spec fn files_view(fs: Seq<FileTable>) -> Seq<FileModel> {
    fs.map_values(|f: FileTable| f@)
}

/// The smallest `k < n` with `p(k)`, or `n` when there is none.
pub open spec fn first_where(n: nat, p: spec_fn(int) -> bool) -> int
    decreases n,
{
    if n == 0 {
        0
    } else if first_where((n - 1) as nat, p) < n - 1 {
        first_where((n - 1) as nat, p)
    } else if p(n - 1) {
        n - 1
    } else {
        n as int
    }
}

proof fn lemma_first_where(n: nat, p: spec_fn(int) -> bool)
    ensures
        0 <= first_where(n, p) <= n,
        forall|m: int| 0 <= m < first_where(n, p) ==> !#[trigger] p(m),
        first_where(n, p) < n ==> p(first_where(n, p)),
    decreases n,
{
    if n > 0 {
        lemma_first_where((n - 1) as nat, p);
    }
}

proof fn lemma_first_where_unique(n: nat, p: spec_fn(int) -> bool, k: int)
    requires
        0 <= k <= n,
        forall|m: int| 0 <= m < k ==> !#[trigger] p(m),
        k < n ==> p(k),
    ensures
        first_where(n, p) == k,
{
    lemma_first_where(n, p);
    let f = first_where(n, p);
    if f < k {
        assert(!p(f));
    } else if k < f {
        assert(p(k));
    }
}

pub open spec fn countries_dir() -> Seq<char> {
    seq!['c', 'o', 'u', 'n', 't', 'r', 'i', 'e', 's', '/']
}

/// The first country file that a tag's path (`countries/<file>`) names.
pub open spec fn country_index(cs: Seq<FileModel>, path: Seq<char>) -> int {
    first_where(cs.len(), |k: int| countries_dir() + cs[k].name == path)
}

/// The first history file whose name starts with the tag.
pub open spec fn history_index(hs: Seq<FileModel>, tag: Seq<char>) -> int {
    first_where(
        hs.len(),
        |k: int| tag.len() <= hs[k].name.len() && hs[k].name.subrange(0, tag.len() as int) == tag,
    )
}

fn find_country(countries: &Vec<FileTable>, path: &str) -> (r: usize)
    ensures
        r == country_index(files_view(countries@), path@),
{
    let ghost cs = files_view(countries@);
    let ghost p = |k: int| countries_dir() + cs[k].name == path@;
    let mut k: usize = 0;
    while k < countries.len()
        invariant
            k <= countries.len(),
            cs == files_view(countries@),
            cs.len() == countries.len(),
            p == (|k: int| countries_dir() + cs[k].name == path@),
            forall|m: int| 0 <= m < k ==> !#[trigger] p(m),
        decreases countries.len() - k,
    {
        let full = concat("countries/", countries[k].file_name.as_str());
        proof {
            reveal_strlit("countries/");
            assert("countries/"@ =~= countries_dir());
            assert(cs[k as int] == countries@[k as int]@);
        }
        if full.as_str().eq(path) {
            proof {
                lemma_first_where_unique(cs.len(), p, k as int);
            }
            return k;
        }
        k = k + 1;
    }
    proof {
        lemma_first_where_unique(cs.len(), p, k as int);
    }
    k
}

fn find_history(histories: &Vec<FileTable>, tag: &str) -> (r: usize)
    ensures
        r == history_index(files_view(histories@), tag@),
{
    let ghost hs = files_view(histories@);
    let ghost p = |k: int|
        tag@.len() <= hs[k].name.len() && hs[k].name.subrange(0, tag@.len() as int) == tag@;
    let mut k: usize = 0;
    while k < histories.len()
        invariant
            k <= histories.len(),
            hs == files_view(histories@),
            hs.len() == histories.len(),
            p == (|k: int|
                tag@.len() <= hs[k].name.len() && hs[k].name.subrange(0, tag@.len() as int)
                    == tag@),
            forall|m: int| 0 <= m < k ==> !#[trigger] p(m),
        decreases histories.len() - k,
    {
        assert(hs[k as int] == histories@[k as int]@);
        if starts_with(histories[k].file_name.as_str(), tag) {
            proof {
                lemma_first_where_unique(hs.len(), p, k as int);
            }
            return k;
        }
        k = k + 1;
    }
    proof {
        lemma_first_where_unique(hs.len(), p, k as int);
    }
    k
}

/// Why a province could not be made a country.
#[derive(Debug, Clone, Copy, PartialEq, Eq)]
pub enum ShatterError {
    /// The province's `owner` is not a tag.
    OwnerNotText,
    /// The owner's tag gives no country file path.
    UnknownOwner,
    /// No country file has the owner's path.
    NoCountryFile,
    /// No history file name starts with the owner's tag.
    NoCountryHistory,
    /// The province's file name holds no id and name.
    BadFileName,
    /// The province has no `culture`.
    MissingCulture,
    /// The province has no `religion`.
    MissingReligion,
    /// The new country is an elector and the old history gives no capital.
    MissingCapital,
    /// Every tag number is taken.
    NoFreeTag,
}

/// A country made from a province: its tag, the province's name, and its
/// country and history files.
pub struct NewCountry {
    pub tag: String,
    pub name: String,
    pub country: FileTable,
    pub history: FileTable,
}

pub open spec fn text_value(v: Option<ValueModel>) -> Option<Seq<char>> {
    match v {
        Some(ValueModel::Text(t)) => Some(t),
        _ => None,
    }
}

pub open spec fn color_value(c: (u8, u8, u8)) -> ValueModel {
    ValueModel::List(
        seq![
            ValueModel::Text(decimal(c.0 as nat)),
            ValueModel::Text(decimal(c.1 as nat)),
            ValueModel::Text(decimal(c.2 as nat)),
        ],
    )
}

/// The history's data with events cleared and the province's culture and
/// religion, before the elector rule.
pub open spec fn history_base(h: Seq<EntryModel>, culture: ValueModel, religion: ValueModel) -> Seq<
    EntryModel,
> {
    upsert(upsert(h.filter(keeps()), "culture"@, culture), "religion"@, religion)
}

/// A new country stays an elector only when its province was the old
/// country's capital.
pub open spec fn loses_elector(base: Seq<EntryModel>, old_history: Seq<EntryModel>, id: Seq<char>) -> bool {
    lookup(base, "elector"@) == Some(ValueModel::Text("yes"@)) && text_value(
        lookup(old_history, "capital"@),
    ) != Some(id)
}

/// The first check that fails for a province that has an owner.
pub open spec fn shatter_check(
    p: FileModel,
    tags: Seq<EntryModel>,
    cs: Seq<FileModel>,
    hs: Seq<FileModel>,
) -> Option<ShatterError> {
    let owner = text_value(lookup(p.data, "owner"@));
    if owner is None {
        Some(ShatterError::OwnerNotText)
    } else if text_value(lookup(tags, owner->0)) is None {
        Some(ShatterError::UnknownOwner)
    } else if country_index(cs, text_value(lookup(tags, owner->0))->0) >= cs.len() {
        Some(ShatterError::NoCountryFile)
    } else if history_index(hs, owner->0) >= hs.len() {
        Some(ShatterError::NoCountryHistory)
    } else if id_and_name(p.name) is None {
        Some(ShatterError::BadFileName)
    } else if lookup(p.data, "culture"@) is None {
        Some(ShatterError::MissingCulture)
    } else if lookup(p.data, "religion"@) is None {
        Some(ShatterError::MissingReligion)
    } else {
        let h = hs[history_index(hs, owner->0)].data;
        let base = history_base(h, lookup(p.data, "culture"@)->0, lookup(p.data, "religion"@)->0);
        if lookup(base, "elector"@) == Some(ValueModel::Text("yes"@)) && text_value(
            lookup(h, "capital"@),
        ) is None {
            Some(ShatterError::MissingCapital)
        } else {
            None
        }
    }
}

/// Makes a country of `province`: a copy of its owner's country file,
/// named after the province, with events cleared and the given colour; a
/// copy of the owner's history file under the next free tag, with events
/// cleared, the province's culture and religion, and the elector rule
/// applied. The tag is added to `country_tags` with the new file's path,
/// and the province passes to it. A province without owner gives `None`;
/// on an error nothing changes but, when no tag is free, `tag_num`.
#[verifier::rlimit(40)]
pub fn split_province(
    province: &mut FileTable,
    country_tags: &mut Eu4Table,
    countries: &Vec<FileTable>,
    histories: &Vec<FileTable>,
    tag_num: &mut u32,
    color: (u8, u8, u8),
) -> (r: Result<Option<NewCountry>, ShatterError>)
    ensures
        ({
            let p = old(province)@;
            let tags = old(country_tags)@;
            let cs = files_view(countries@);
            let hs = files_view(histories@);
            let owned = lookup(p.data, "owner"@) is Some;
            &&& !(r matches Ok(Some(_))) ==> final(province)@ == p && final(country_tags)@ == tags
            &&& !owned ==> (r matches Ok(None)) && *final(tag_num) == *old(tag_num)
            &&& owned && shatter_check(p, tags, cs, hs) is Some ==> r == Err::<
                Option<NewCountry>,
                ShatterError,
            >(shatter_check(p, tags, cs, hs)->0) && *final(tag_num) == *old(tag_num)
            &&& owned && shatter_check(p, tags, cs, hs) is None ==> (r matches Ok(Some(_))) || r
                == Err::<Option<NewCountry>, ShatterError>(ShatterError::NoFreeTag)
            &&& r == Err::<Option<NewCountry>, ShatterError>(ShatterError::NoFreeTag) ==> {
                &&& *final(tag_num) == if *old(tag_num) < TAG_LIMIT {
                    TAG_LIMIT
                } else {
                    *old(tag_num)
                }
                &&& forall|n: nat|
                    *old(tag_num) <= n < *final(tag_num) ==> !tag_free(#[trigger] tag_for_num(n), tags)
            }
            &&& r matches Ok(Some(nc)) ==> {
                let owner = text_value(lookup(p.data, "owner"@))->0;
                let path = text_value(lookup(tags, owner))->0;
                let c = cs[country_index(cs, path)];
                let h = hs[history_index(hs, owner)];
                let parts = id_and_name(p.name).unwrap();
                let id = parts.0;
                let name = parts.1;
                let file = name + ".txt"@;
                let base = history_base(
                    h.data,
                    lookup(p.data, "culture"@)->0,
                    lookup(p.data, "religion"@)->0,
                );
                let t = tag_for_num((*final(tag_num) - 1) as nat);
                &&& owned && shatter_check(p, tags, cs, hs) is None
                &&& *old(tag_num) < *final(tag_num) <= TAG_LIMIT
                &&& tag_free(t, tags)
                &&& forall|n: nat|
                    *old(tag_num) <= n < *final(tag_num) - 1 ==> !tag_free(
                        #[trigger] tag_for_num(n),
                        tags,
                    )
                &&& nc.tag@ == t
                &&& nc.name@ == name
                &&& nc.country@ == FileModel {
                    name: file,
                    data: upsert(c.data.filter(keeps()), "color"@, color_value(color)),
                }
                &&& nc.history@ == FileModel {
                    name: t + " - "@ + file,
                    data: if loses_elector(base, h.data, id) {
                        upsert(base, "elector"@, ValueModel::Text("no"@))
                    } else {
                        base
                    },
                }
                &&& final(country_tags)@ == upsert(tags, t, ValueModel::Text(countries_dir() + file))
                &&& final(province)@ == FileModel {
                    name: p.name,
                    data: upsert(
                        upsert(upsert(p.data, "owner"@, ValueModel::Text(t)), "controller"@, ValueModel::Text(t)),
                        "add_core"@,
                        ValueModel::Text(t),
                    ),
                }
            }
        }),
{
    let owner: String = match province.data.get("owner") {
        None => {
            return Ok(None);
        },
        Some(v) => match v.as_str() {
            Ok(t) => t.to_owned(),
            Err(_) => {
                return Err(ShatterError::OwnerNotText);
            },
        },
    };
    let path: String = match country_tags.get(owner.as_str()) {
        Some(v) => match v.as_str() {
            Ok(t) => t.to_owned(),
            Err(_) => {
                return Err(ShatterError::UnknownOwner);
            },
        },
        None => {
            return Err(ShatterError::UnknownOwner);
        },
    };
    let ci = find_country(countries, path.as_str());
    if ci >= countries.len() {
        return Err(ShatterError::NoCountryFile);
    }
    let hi = find_history(histories, owner.as_str());
    if hi >= histories.len() {
        return Err(ShatterError::NoCountryHistory);
    }
    let (id, name) = match province_id_and_name(province.file_name.as_str()) {
        Some(parts) => parts,
        None => {
            return Err(ShatterError::BadFileName);
        },
    };
    let culture = match province.data.get("culture") {
        Some(v) => v.clone(),
        None => {
            return Err(ShatterError::MissingCulture);
        },
    };
    let religion = match province.data.get("religion") {
        Some(v) => v.clone(),
        None => {
            return Err(ShatterError::MissingReligion);
        },
    };
    proof {
        assert(files_view(countries@)[ci as int] == countries@[ci as int]@);
        assert(files_view(histories@)[hi as int] == histories@[hi as int]@);
    }
    let mut history = histories[hi].clone();
    clear_events(&mut history.data);
    history.data.set("culture", culture);
    history.data.set("religion", religion);
    let elector = match history.data.get("elector") {
        Some(v) => match v.as_str() {
            Ok(t) => t.eq("yes"),
            Err(_) => false,
        },
        None => false,
    };
    let mut lose = false;
    if elector {
        match histories[hi].data.get("capital") {
            Some(v) => match v.as_str() {
                Ok(capital) => {
                    lose = !capital.eq(id.as_str());
                },
                Err(_) => {
                    return Err(ShatterError::MissingCapital);
                },
            },
            None => {
                return Err(ShatterError::MissingCapital);
            },
        }
    }
    let tag = match get_next_valid_tag(tag_num, country_tags) {
        Some(t) => t,
        None => {
            return Err(ShatterError::NoFreeTag);
        },
    };
    let file = concat(name.as_str(), ".txt");
    if lose {
        history.data.set("elector", Eu4Value::String("no".to_owned()));
    }
    let prefix = concat(tag.as_str(), " - ");
    history.file_name = concat(prefix.as_str(), file.as_str());
    let mut country = countries[ci].clone();
    country.file_name = file.clone();
    clear_events(&mut country.data);
    country.data.set("color", Eu4Value::color(color.0, color.1, color.2));
    let tag_path = concat("countries/", file.as_str());
    proof {
        reveal_strlit("countries/");
        assert("countries/"@ =~= countries_dir());
    }
    country_tags.set(tag.as_str(), Eu4Value::String(tag_path));
    province.data.set("owner", Eu4Value::String(tag.clone()));
    province.data.set("controller", Eu4Value::String(tag.clone()));
    province.data.set("add_core", Eu4Value::String(tag.clone()));
    Ok(Some(NewCountry { tag, name, country, history }))
}

/// The localisation lines that name a new country and its adjective:
/// `\n <tag>: "<name>"` and `\n <tag>_ADJ: "<name>"`.
pub fn localisation_lines(tag: &str, name: &str) -> (r: String)
    ensures
        r@ == "\n "@ + tag@ + ": \""@ + name@ + "\""@ + "\n "@ + tag@ + "_ADJ: \""@ + name@
            + "\""@,
{
    let a = concat("\n ", tag);
    let a = concat(a.as_str(), ": \"");
    let a = concat(a.as_str(), name);
    let a = concat(a.as_str(), "\"");
    let a = concat(a.as_str(), "\n ");
    let a = concat(a.as_str(), tag);
    let a = concat(a.as_str(), "_ADJ: \"");
    let a = concat(a.as_str(), name);
    concat(a.as_str(), "\"")
}

} // verus!
