//! Nations and provinces, and how the nations of a parsed save game (and
//! the owners of the provinces) are read from its values.
use vstd::prelude::*;
use crate::eu4_save_parser::{SaveValue, SpecValue, items_view, value_view, lemma_items_view};

verus! {

broadcast use vstd::std_specs::vec::axiom_vec_decreases_to_view;

/// A colour as its red, green and blue channels.
#[derive(Clone, Copy, PartialEq, Eq, Structural, Debug)]
pub struct Color {
    pub r: u8,
    pub g: u8,
    pub b: u8,
}

/// A nation of the save game.
#[derive(Clone)]
pub struct Nation {
    pub id: u32,
    pub name: String,
    pub tag: String,
    pub color_r: u8,
    pub color_g: u8,
    pub color_b: u8,
    pub rank: u8,
    pub gov_type: String,
    pub religion: String,
    pub allies: Vec<String>,
    pub subjects: Vec<String>,
}

/// The model of a `Nation`.
pub struct NationView {
    pub id: u32,
    pub name: Seq<char>,
    pub tag: Seq<char>,
    pub color_r: u8,
    pub color_g: u8,
    pub color_b: u8,
    pub rank: u8,
    pub gov_type: Seq<char>,
    pub religion: Seq<char>,
    pub allies: Seq<Seq<char>>,
    pub subjects: Seq<Seq<char>>,
}

/// The texts of a sequence of strings.
pub open spec fn strings_view(v: Seq<String>) -> Seq<Seq<char>> {
    v.map_values(|s: String| s@)
}

impl View for Nation {
    type V = NationView;

    open spec fn view(&self) -> NationView {
        NationView {
            id: self.id,
            name: self.name@,
            tag: self.tag@,
            color_r: self.color_r,
            color_g: self.color_g,
            color_b: self.color_b,
            rank: self.rank,
            gov_type: self.gov_type@,
            religion: self.religion@,
            allies: strings_view(self.allies@),
            subjects: strings_view(self.subjects@),
        }
    }
}

/// A province of the map.
pub struct Province {
    pub id: u16,
    pub name: String,
    pub color_r: u8,
    pub color_g: u8,
    pub color_b: u8,
    pub dev: u16,
    pub is_used: bool,
    pub is_sea: bool,
    pub is_lake: bool,
    /// The province's colour on the province map.
    pub col: Color,
    pub owner: Option<Nation>,
}

/// The model of a `Province`.
pub struct ProvinceView {
    pub id: u16,
    pub name: Seq<char>,
    pub color_r: u8,
    pub color_g: u8,
    pub color_b: u8,
    pub dev: u16,
    pub is_used: bool,
    pub is_sea: bool,
    pub is_lake: bool,
    pub col: Color,
    pub owner: Option<NationView>,
}

impl View for Province {
    type V = ProvinceView;

    open spec fn view(&self) -> ProvinceView {
        ProvinceView {
            id: self.id,
            name: self.name@,
            color_r: self.color_r,
            color_g: self.color_g,
            color_b: self.color_b,
            dev: self.dev,
            is_used: self.is_used,
            is_sea: self.is_sea,
            is_lake: self.is_lake,
            col: self.col,
            owner: match self.owner {
                Some(n) => Some(n@),
                None => None,
            },
        }
    }
}

/// The models of a sequence of nations.
pub open spec fn nations_view(v: Seq<Nation>) -> Seq<NationView> {
    v.map_values(|n: Nation| n@)
}

/// The models of a sequence of provinces.
pub open spec fn provinces_view(v: Seq<Province>) -> Seq<ProvinceView> {
    v.map_values(|p: Province| p@)
}


/// The nation that an entry of the save game's `countries` starts from,
/// before its own entries are read.
pub open spec fn default_nation(tag: Seq<char>) -> NationView {
    NationView {
        id: 1,
        name: tag,
        tag: tag,
        color_r: 0,
        color_g: 0,
        color_b: 0,
        rank: 1,
        gov_type: "Království"@,
        religion: "Hussite"@,
        allies: seq![],
        subjects: seq![],
    }
}

/// One entry of a `map_color` array: the numbers set the red, the green and
/// then the blue channel (each to the number's low eight bits), and any
/// number after the third sets the blue channel again. `count` is how many
/// numbers came before.
pub open spec fn map_color_step(c: NationView, count: int, item: SpecValue) -> (NationView, int) {
    match item {
        SpecValue::Number(n) => (
            if count == 0 {
                NationView { color_r: n as u8, ..c }
            } else if count == 1 {
                NationView { color_g: n as u8, ..c }
            } else {
                NationView { color_b: n as u8, ..c }
            },
            count + 1,
        ),
        _ => (c, count),
    }
}

/// The nation after the entries of a `map_color` array, and how many of
/// them were numbers.
pub open spec fn apply_map_color(c: NationView, cols: Seq<SpecValue>) -> (NationView, int)
    decreases cols.len(),
{
    if cols.len() == 0 {
        (c, 0)
    } else {
        let (c1, k) = apply_map_color(c, cols.drop_last());
        map_color_step(c1, k, cols.last())
    }
}

/// One entry of a nation's `colors`: a `map_color` array sets the colour.
pub open spec fn colors_step(c: NationView, item: SpecValue) -> NationView {
    match item {
        SpecValue::Object(ccname, carr) => if ccname == "map_color"@ {
            match *carr {
                SpecValue::Array(cols) => apply_map_color(c, cols).0,
                _ => c,
            }
        } else {
            c
        },
        _ => c,
    }
}

/// The nation after the entries of its `colors`.
pub open spec fn apply_colors(c: NationView, s: Seq<SpecValue>) -> NationView
    decreases s.len(),
{
    if s.len() == 0 {
        c
    } else {
        colors_step(apply_colors(c, s.drop_last()), s.last())
    }
}

/// The provinces with the id `id` get the owner `c`.
pub open spec fn set_owner(pv: Seq<ProvinceView>, id: u16, c: NationView) -> Seq<ProvinceView> {
    Seq::new(
        pv.len(),
        |k: int|
            if pv[k].id == id {
                ProvinceView { owner: Some(c), ..pv[k] }
            } else {
                pv[k]
            },
    )
}

/// The provinces after the entries of a nation's `owned_provinces`: each
/// number names (by its low sixteen bits) provinces that get the owner `c`.
pub open spec fn apply_owned(pv: Seq<ProvinceView>, c: NationView, opa: Seq<SpecValue>) -> Seq<
    ProvinceView,
>
    decreases opa.len(),
{
    if opa.len() == 0 {
        pv
    } else {
        let before = apply_owned(pv, c, opa.drop_last());
        match opa.last() {
            SpecValue::Number(n) => set_owner(before, n as u16, c),
            _ => before,
        }
    }
}

/// The strings among `a`, in order.
pub open spec fn string_items(a: Seq<SpecValue>) -> Seq<Seq<char>>
    decreases a.len(),
{
    if a.len() == 0 {
        seq![]
    } else {
        let before = string_items(a.drop_last());
        match a.last() {
            SpecValue::Str(t) => before.push(t),
            _ => before,
        }
    }
}

/// The strings of an array are all its string items, in order: an empty
/// array has none, a string item at the end adds its text at the end, and
/// any other item adds nothing; so there is one for each string item.
pub proof fn lemma_string_items(a: Seq<SpecValue>, v: SpecValue)
    ensures
        string_items(seq![]) == Seq::<Seq<char>>::empty(),
        v matches SpecValue::Str(t) ==> string_items(a.push(v)) == string_items(a).push(t),
        !(v is Str) ==> string_items(a.push(v)) == string_items(a),
        string_items(a).len() <= a.len(),
        forall|t: Seq<char>| a.contains(SpecValue::Str(t)) ==> #[trigger] string_items(a).contains(t),
    decreases a.len(),
{
    assert(a.push(v).drop_last() =~= a);
    if a.len() > 0 {
        lemma_string_items(a.drop_last(), a.last());
        assert(a.drop_last().push(a.last()) =~= a);
        assert forall|t: Seq<char>| a.contains(SpecValue::Str(t)) implies #[trigger] string_items(a).contains(t) by {
            let k = choose|k: int| 0 <= k < a.len() && a[k] == SpecValue::Str(t);
            if k < a.len() - 1 {
                assert(a.drop_last()[k] == SpecValue::Str(t));
                assert(a.drop_last().contains(SpecValue::Str(t)));
                let b = string_items(a.drop_last());
                assert(b.contains(t));
                if let SpecValue::Str(u) = a.last() {
                    let m = choose|m: int| 0 <= m < b.len() && b[m] == t;
                    assert(b.push(u)[m] == t);
                }
            } else {
                let b = string_items(a.drop_last());
                assert(b.push(t)[b.len() as int] == t);
            }
        }
    }
}

/// The allies and subjects entries of a nation add all the strings of their
/// arrays, in order, after those it has.
pub proof fn lemma_allies_and_subjects(c: NationView, pv: Seq<ProvinceView>, a: Seq<SpecValue>)
    ensures
        info_step(c, pv, SpecValue::Object("allies"@, Box::new(SpecValue::Array(a)))).0.allies == c.allies
            + string_items(a),
        info_step(c, pv, SpecValue::Object("subjects"@, Box::new(SpecValue::Array(a)))).0.subjects
            == c.subjects + string_items(a),
{
    reveal_strlit("allies");
    reveal_strlit("subjects");
    reveal_strlit("government_name");
    reveal_strlit("government_rank");
    reveal_strlit("religion");
    reveal_strlit("colors");
    reveal_strlit("owned_provinces");
    assert("allies"@.len() == 6 && "subjects"@.len() == 8);
    assert("government_name"@.len() == 15 && "government_rank"@.len() == 15 && "owned_provinces"@.len() == 15);
    assert("religion"@.len() == 8 && "colors"@.len() == 6);
    assert("allies"@[0] != "colors"@[0]);
    assert("subjects"@[0] != "religion"@[0]);
    assert("allies"@ != "colors"@);
    assert("subjects"@ != "religion"@);
}

/// One entry of a nation's information, and what it changes of the nation
/// and of the provinces: `government_name` and `government_rank` (a string)
/// set the kind of government, `religion` (a string) the religion, `colors`
/// the colour, `owned_provinces` the owner of the provinces it names (the
/// nation as it is at that entry), `allies` and `subjects` add the strings
/// they hold. Anything else changes nothing.
pub open spec fn info_step(c: NationView, pv: Seq<ProvinceView>, entry: SpecValue) -> (
    NationView,
    Seq<ProvinceView>,
) {
    match entry {
        SpecValue::Object(name, val) => if name == "government_name"@ || name
            == "government_rank"@ {
            match *val {
                SpecValue::Str(t) => (NationView { gov_type: t, ..c }, pv),
                _ => (c, pv),
            }
        } else if name == "religion"@ {
            match *val {
                SpecValue::Str(t) => (NationView { religion: t, ..c }, pv),
                _ => (c, pv),
            }
        } else if name == "colors"@ {
            match *val {
                SpecValue::Array(a) => (apply_colors(c, a), pv),
                _ => (c, pv),
            }
        } else if name == "owned_provinces"@ {
            match *val {
                SpecValue::Array(a) => (c, apply_owned(pv, c, a)),
                _ => (c, pv),
            }
        } else if name == "allies"@ {
            match *val {
                SpecValue::Array(a) => (NationView { allies: c.allies + string_items(a), ..c }, pv),
                _ => (c, pv),
            }
        } else if name == "subjects"@ {
            match *val {
                SpecValue::Array(a) => (
                    NationView { subjects: c.subjects + string_items(a), ..c },
                    pv,
                ),
                _ => (c, pv),
            }
        } else {
            (c, pv)
        },
        _ => (c, pv),
    }
}

/// The nation and the provinces after a nation's entries, in order.
pub open spec fn apply_info(c: NationView, pv: Seq<ProvinceView>, entries: Seq<SpecValue>) -> (
    NationView,
    Seq<ProvinceView>,
)
    decreases entries.len(),
{
    if entries.len() == 0 {
        (c, pv)
    } else {
        let (c1, pv1) = apply_info(c, pv, entries.drop_last());
        info_step(c1, pv1, entries.last())
    }
}

/// One entry of the save game's `countries`: an object whose value is an
/// array makes a nation with the object's key as tag and name.
pub open spec fn country_step(
    acc: (Seq<NationView>, Seq<ProvinceView>),
    item: SpecValue,
) -> (Seq<NationView>, Seq<ProvinceView>) {
    match item {
        SpecValue::Object(tag, inf) => match *inf {
            SpecValue::Array(info) => {
                let (c, pv) = apply_info(default_nation(tag), acc.1, info);
                (acc.0.push(c), pv)
            },
            _ => acc,
        },
        _ => acc,
    }
}

/// The nations and provinces after the entries of a `countries` array.
pub open spec fn apply_countries(
    acc: (Seq<NationView>, Seq<ProvinceView>),
    a: Seq<SpecValue>,
) -> (Seq<NationView>, Seq<ProvinceView>)
    decreases a.len(),
{
    if a.len() == 0 {
        acc
    } else {
        country_step(apply_countries(acc, a.drop_last()), a.last())
    }
}

/// One top-level value of the save game: an object `countries` whose value
/// is an array holds the nations.
pub open spec fn top_step(acc: (Seq<NationView>, Seq<ProvinceView>), item: SpecValue) -> (
    Seq<NationView>,
    Seq<ProvinceView>,
) {
    match item {
        SpecValue::Object(key, u) => if key == "countries"@ {
            match *u {
                SpecValue::Array(a) => apply_countries(acc, a),
                _ => acc,
            }
        } else {
            acc
        },
        _ => acc,
    }
}

/// The nations of the save game's top-level values `sv`, and the provinces
/// `pv` with their owners set, after the values in order.
pub open spec fn nations_of(acc: (Seq<NationView>, Seq<ProvinceView>), sv: Seq<SpecValue>) -> (
    Seq<NationView>,
    Seq<ProvinceView>,
)
    decreases sv.len(),
{
    if sv.len() == 0 {
        acc
    } else {
        top_step(nations_of(acc, sv.drop_last()), sv.last())
    }
}


/// `b` holds the provinces of `a`, in the same order, the same in all but
/// their owners.
pub open spec fn same_but_owners(a: Seq<ProvinceView>, b: Seq<ProvinceView>) -> bool {
    &&& a.len() == b.len()
    &&& forall|k: int| 0 <= k < a.len() ==> #[trigger] b[k] == ProvinceView { owner: b[k].owner, ..a[k] }
}

proof fn lemma_same_but_owners_trans(a: Seq<ProvinceView>, b: Seq<ProvinceView>, c: Seq<ProvinceView>)
    requires
        same_but_owners(a, b),
        same_but_owners(b, c),
    ensures
        same_but_owners(a, c),
{
    assert forall|k: int| 0 <= k < a.len() implies #[trigger] c[k] == ProvinceView { owner: c[k].owner, ..a[k] } by {
        assert(b[k] == ProvinceView { owner: b[k].owner, ..a[k] });
        assert(c[k] == ProvinceView { owner: c[k].owner, ..b[k] });
    }
}

proof fn lemma_apply_owned_same(pv: Seq<ProvinceView>, c: NationView, opa: Seq<SpecValue>)
    ensures
        same_but_owners(pv, apply_owned(pv, c, opa)),
    decreases opa.len(),
{
    if opa.len() > 0 {
        lemma_apply_owned_same(pv, c, opa.drop_last());
        let before = apply_owned(pv, c, opa.drop_last());
        if let SpecValue::Number(n) = opa.last() {
            let after = set_owner(before, n as u16, c);
            assert(same_but_owners(before, after));
            lemma_same_but_owners_trans(pv, before, after);
        }
    } else {
        assert(same_but_owners(pv, pv));
    }
}

proof fn lemma_apply_info_same(c: NationView, pv: Seq<ProvinceView>, entries: Seq<SpecValue>)
    ensures
        same_but_owners(pv, apply_info(c, pv, entries).1),
    decreases entries.len(),
{
    if entries.len() > 0 {
        lemma_apply_info_same(c, pv, entries.drop_last());
        let (c1, pv1) = apply_info(c, pv, entries.drop_last());
        if let SpecValue::Object(name, val) = entries.last() {
            if let SpecValue::Array(a) = *val {
                lemma_apply_owned_same(pv1, c1, a);
                lemma_same_but_owners_trans(pv, pv1, apply_owned(pv1, c1, a));
            }
        }
    } else {
        assert(same_but_owners(pv, pv));
    }
}

proof fn lemma_apply_countries_same(acc: (Seq<NationView>, Seq<ProvinceView>), a: Seq<SpecValue>)
    ensures
        same_but_owners(acc.1, apply_countries(acc, a).1),
    decreases a.len(),
{
    if a.len() > 0 {
        lemma_apply_countries_same(acc, a.drop_last());
        let before = apply_countries(acc, a.drop_last());
        if let SpecValue::Object(tag, inf) = a.last() {
            if let SpecValue::Array(info) = *inf {
                lemma_apply_info_same(default_nation(tag), before.1, info);
                lemma_same_but_owners_trans(acc.1, before.1, apply_info(default_nation(tag), before.1, info).1);
            }
        }
    } else {
        assert(same_but_owners(acc.1, acc.1));
    }
}

/// Reading the nations of a save game changes nothing of the provinces but
/// their owners: the list keeps its length, its order and each province's
/// id, name, colours, development and flags.
pub proof fn lemma_nations_of_keeps_provinces(acc: (Seq<NationView>, Seq<ProvinceView>), sv: Seq<SpecValue>)
    ensures
        same_but_owners(acc.1, nations_of(acc, sv).1),
    decreases sv.len(),
{
    if sv.len() > 0 {
        lemma_nations_of_keeps_provinces(acc, sv.drop_last());
        let before = nations_of(acc, sv.drop_last());
        if let SpecValue::Object(key, u) = sv.last() {
            if let SpecValue::Array(a) = *u {
                lemma_apply_countries_same(before, a);
                lemma_same_but_owners_trans(acc.1, before.1, apply_countries(before, a).1);
            }
        }
    } else {
        assert(same_but_owners(acc.1, acc.1));
    }
}

/// The nations read from a save game come after the nations before, in order.
pub proof fn lemma_nations_of_extends(acc: (Seq<NationView>, Seq<ProvinceView>), sv: Seq<SpecValue>)
    ensures
        acc.0.len() <= nations_of(acc, sv).0.len(),
        nations_of(acc, sv).0.take(acc.0.len() as int) == acc.0,
    decreases sv.len(),
{
    if sv.len() > 0 {
        lemma_nations_of_extends(acc, sv.drop_last());
        let before = nations_of(acc, sv.drop_last());
        if let SpecValue::Object(key, u) = sv.last() {
            if let SpecValue::Array(a) = *u {
                lemma_apply_countries_extends(before, a);
                assert(apply_countries(before, a).0.take(acc.0.len() as int) =~= apply_countries(before, a).0.take(
                    before.0.len() as int,
                ).take(acc.0.len() as int));
            }
        }
    } else {
        assert(acc.0.take(acc.0.len() as int) =~= acc.0);
    }
}

proof fn lemma_apply_countries_extends(acc: (Seq<NationView>, Seq<ProvinceView>), a: Seq<SpecValue>)
    ensures
        acc.0.len() <= apply_countries(acc, a).0.len(),
        apply_countries(acc, a).0.take(acc.0.len() as int) == acc.0,
    decreases a.len(),
{
    if a.len() > 0 {
        lemma_apply_countries_extends(acc, a.drop_last());
        let before = apply_countries(acc, a.drop_last());
        let after = apply_countries(acc, a);
        assert(after.0.take(acc.0.len() as int) =~= after.0.take(before.0.len() as int).take(
            acc.0.len() as int,
        ));
        if let SpecValue::Object(tag, inf) = a.last() {
            if let SpecValue::Array(info) = *inf {
                assert(after.0.take(before.0.len() as int) =~= before.0);
            } else {
                assert(after.0.take(before.0.len() as int) =~= before.0);
            }
        } else {
            assert(after.0.take(before.0.len() as int) =~= before.0);
        }
    } else {
        assert(acc.0.take(acc.0.len() as int) =~= acc.0);
    }
}

impl Nation {
    /// The nation's title: its kind of government, " of ", and its name.
    pub fn get_title(&self) -> (title: String)
        ensures
            title@ == self.gov_type@ + " of "@ + self.name@,
    {
        let mut gt: String = self.gov_type.clone();
        gt.append(" of ");
        gt.append(self.name.as_str());
        gt
    }
}

/// Whether `tags` holds the text `tag`.
pub fn contains_tag(tags: &Vec<String>, tag: &String) -> (r: bool)
    ensures
        r == strings_view(tags@).contains(tag@),
{
    let mut i: usize = 0;
    while i < tags.len()
        invariant
            i <= tags@.len(),
            forall|k: int| 0 <= k < i ==> tags@[k]@ != tag@,
        decreases tags@.len() - i,
    {
        if tags[i] == *tag {
            assert(strings_view(tags@)[i as int] == tag@);
            return true;
        }
        i += 1;
    }
    proof {
        if strings_view(tags@).contains(tag@) {
            let k = choose|k: int| 0 <= k < tags@.len() && strings_view(tags@)[k] == tag@;
            assert(tags@[k]@ == tag@);
        }
    }
    false
}

/// A copy of a list of strings.
fn copy_strings(v: &Vec<String>) -> (r: Vec<String>)
    ensures
        strings_view(r@) == strings_view(v@),
{
    let mut r: Vec<String> = Vec::new();
    let mut i: usize = 0;
    while i < v.len()
        invariant
            i <= v@.len(),
            r@.len() == i,
            strings_view(r@) == strings_view(v@.take(i as int)),
        decreases v@.len() - i,
    {
        let ghost before = r@;
        let item = v[i].clone();
        r.push(item);
        proof {
            assert forall|k: int| 0 <= k < r@.len() implies #[trigger] r@[k]@ == v@.take(i + 1)[k]@ by {
                if k < i {
                    assert(r@[k] == before[k]);
                    assert(strings_view(before)[k] == strings_view(v@.take(i as int))[k]);
                }
            }
        }
        i += 1;
        assert(strings_view(r@) =~= strings_view(v@.take(i as int)));
    }
    assert(v@.take(i as int) =~= v@);
    r
}

/// A copy of a nation.
pub fn copy_nation(n: &Nation) -> (r: Nation)
    ensures
        r@ == n@,
{
    Nation {
        id: n.id,
        name: n.name.clone(),
        tag: n.tag.clone(),
        color_r: n.color_r,
        color_g: n.color_g,
        color_b: n.color_b,
        rank: n.rank,
        gov_type: n.gov_type.clone(),
        religion: n.religion.clone(),
        allies: copy_strings(&n.allies),
        subjects: copy_strings(&n.subjects),
    }
}


/// Reads the entries of a `map_color` array into the nation's colour.
fn read_map_color(c: &mut Nation, cols: &Vec<Box<SaveValue>>)
    ensures
        final(c)@ == apply_map_color(old(c)@, items_view(cols@)).0,
{
    let ghost c0 = c@;
    let ghost iv = items_view(cols@);
    proof {
        lemma_items_view(cols@);
        assert(iv.take(0) =~= Seq::<SpecValue>::empty());
    }
    let mut cnt: usize = 0;
    let mut i: usize = 0;
    while i < cols.len()
        invariant
            i <= cols@.len(),
            iv == items_view(cols@),
            iv.len() == cols@.len(),
            forall|k: int| 0 <= k < cols@.len() ==> #[trigger] iv[k] == value_view(*cols@[k]),
            cnt <= i,
            (c@, cnt as int) == apply_map_color(c0, iv.take(i as int)),
        decreases cols@.len() - i,
    {
        proof {
            reveal_with_fuel(value_view, 2);
            assert(iv.take(i + 1).drop_last() =~= iv.take(i as int));
            assert(iv.take(i + 1).last() == value_view(*cols@[i as int]));
        }
        match &*cols[i] {
            SaveValue::SaveNumber(colnum) => {
                if cnt == 0 {
                    c.color_r = *colnum as u8;
                } else if cnt == 1 {
                    c.color_g = *colnum as u8;
                } else {
                    c.color_b = *colnum as u8;
                }
                cnt += 1;
            },
            _ => {},
        }
        i += 1;
    }
    assert(iv.take(i as int) =~= iv);
}

/// Reads the entries of a nation's `colors`.
fn read_colors(c: &mut Nation, s: &Vec<Box<SaveValue>>)
    ensures
        final(c)@ == apply_colors(old(c)@, items_view(s@)),
{
    let ghost c0 = c@;
    let ghost iv = items_view(s@);
    proof {
        lemma_items_view(s@);
        assert(iv.take(0) =~= Seq::<SpecValue>::empty());
    }
    let mut i: usize = 0;
    while i < s.len()
        invariant
            i <= s@.len(),
            iv == items_view(s@),
            iv.len() == s@.len(),
            forall|k: int| 0 <= k < s@.len() ==> #[trigger] iv[k] == value_view(*s@[k]),
            c@ == apply_colors(c0, iv.take(i as int)),
        decreases s@.len() - i,
    {
        proof {
            reveal_with_fuel(value_view, 2);
            assert(iv.take(i + 1).drop_last() =~= iv.take(i as int));
            assert(iv.take(i + 1).last() == value_view(*s@[i as int]));
        }
        match &*s[i] {
            SaveValue::SaveObject(ccname, carr) => {
                if *ccname == String::from_str("map_color") {
                    match &**carr {
                        SaveValue::SaveArray(cols) => {
                            read_map_color(c, cols);
                        },
                        _ => {},
                    }
                }
            },
            _ => {},
        }
        i += 1;
    }
    assert(iv.take(i as int) =~= iv);
}

/// Gives the provinces with the id `id` a copy of `c` as owner.
fn assign_owner(pv: &mut Vec<Province>, id: u16, c: &Nation)
    ensures
        provinces_view(final(pv)@) == set_owner(provinces_view(old(pv)@), id, c@),
{
    let ghost p0 = provinces_view(pv@);
    let mut k: usize = 0;
    while k < pv.len()
        invariant
            k <= pv@.len(),
            p0.len() == pv@.len(),
            forall|j: int| 0 <= j < k ==> #[trigger] pv@[j]@ == set_owner(p0, id, c@)[j],
            forall|j: int| k <= j < pv@.len() ==> #[trigger] pv@[j]@ == p0[j],
        decreases pv@.len() - k,
    {
        let ghost before = pv@;
        if pv[k].id == id {
            let owner = copy_nation(c);
            let ghost ov = owner@;
            pv[k].owner = Some(owner);
            assert(pv@.len() == before.len());
            assert(pv@[k as int].name == before[k as int].name);
            assert(pv@[k as int].id == id);
            assert(pv@[k as int].owner matches Some(o) && o@ == ov);
            assert(p0[k as int] == before[k as int]@);
            assert(pv@[k as int]@ == set_owner(p0, id, c@)[k as int]);
            assert(forall|j: int| 0 <= j < pv@.len() && j != k ==> pv@[j] == before[j]);
        }
        k += 1;
    }
    assert(provinces_view(pv@) =~= set_owner(p0, id, c@));
}

/// Reads the entries of a nation's `owned_provinces`.
fn read_owned_provinces(pv: &mut Vec<Province>, c: &Nation, opa: &Vec<Box<SaveValue>>)
    ensures
        provinces_view(final(pv)@) == apply_owned(provinces_view(old(pv)@), c@, items_view(opa@)),
{
    let ghost p0 = provinces_view(pv@);
    let ghost iv = items_view(opa@);
    proof {
        lemma_items_view(opa@);
        assert(iv.take(0) =~= Seq::<SpecValue>::empty());
    }
    let mut i: usize = 0;
    while i < opa.len()
        invariant
            i <= opa@.len(),
            iv == items_view(opa@),
            iv.len() == opa@.len(),
            forall|k: int| 0 <= k < opa@.len() ==> #[trigger] iv[k] == value_view(*opa@[k]),
            provinces_view(pv@) == apply_owned(p0, c@, iv.take(i as int)),
        decreases opa@.len() - i,
    {
        proof {
            reveal_with_fuel(value_view, 2);
            assert(iv.take(i + 1).drop_last() =~= iv.take(i as int));
            assert(iv.take(i + 1).last() == value_view(*opa@[i as int]));
        }
        match &*opa[i] {
            SaveValue::SaveNumber(opn) => {
                assign_owner(pv, *opn as u16, c);
            },
            _ => {},
        }
        i += 1;
    }
    assert(iv.take(i as int) =~= iv);
}

/// Adds the strings among `a` to `dst`, in order.
fn push_string_items(dst: &mut Vec<String>, a: &Vec<Box<SaveValue>>)
    ensures
        strings_view(final(dst)@) == strings_view(old(dst)@) + string_items(items_view(a@)),
{
    let ghost d0 = strings_view(dst@);
    let ghost iv = items_view(a@);
    proof {
        lemma_items_view(a@);
        assert(iv.take(0) =~= Seq::<SpecValue>::empty());
        assert(d0 + string_items(iv.take(0)) =~= d0);
    }
    let mut i: usize = 0;
    while i < a.len()
        invariant
            i <= a@.len(),
            iv == items_view(a@),
            iv.len() == a@.len(),
            forall|k: int| 0 <= k < a@.len() ==> #[trigger] iv[k] == value_view(*a@[k]),
            strings_view(dst@) == d0 + string_items(iv.take(i as int)),
        decreases a@.len() - i,
    {
        proof {
            reveal_with_fuel(value_view, 2);
            assert(iv.take(i + 1).drop_last() =~= iv.take(i as int));
            assert(iv.take(i + 1).last() == value_view(*a@[i as int]));
        }
        match &*a[i] {
            SaveValue::SaveString(t) => {
                let ghost before = dst@;
                dst.push(t.clone());
                proof {
                    assert(strings_view(dst@) =~= strings_view(before).push(t@));
                    assert(d0 + string_items(iv.take(i as int)).push(t@) =~= (d0 + string_items(
                        iv.take(i as int),
                    )).push(t@));
                }
            },
            _ => {},
        }
        i += 1;
    }
    assert(iv.take(i as int) =~= iv);
}

/// Reads one entry of a nation's information (see `info_step`).
fn read_info_entry(c: &mut Nation, pv: &mut Vec<Province>, entry: &SaveValue)
    ensures
        (final(c)@, provinces_view(final(pv)@)) == info_step(
            old(c)@,
            provinces_view(old(pv)@),
            value_view(*entry),
        ),
{
    proof {
        reveal_with_fuel(value_view, 2);
    }
    match entry {
        SaveValue::SaveObject(name, val) => {
            if *name == String::from_str("government_name") {
                match &**val {
                    SaveValue::SaveString(t) => {
                        c.gov_type = t.clone();
                    },
                    _ => {},
                }
            } else if *name == String::from_str("government_rank") {
                match &**val {
                    SaveValue::SaveString(t) => {
                        c.gov_type = t.clone();
                    },
                    _ => {},
                }
            } else if *name == String::from_str("religion") {
                match &**val {
                    SaveValue::SaveString(t) => {
                        c.religion = t.clone();
                    },
                    _ => {},
                }
            } else if *name == String::from_str("colors") {
                match &**val {
                    SaveValue::SaveArray(s) => {
                        read_colors(c, s);
                    },
                    _ => {},
                }
            } else if *name == String::from_str("owned_provinces") {
                match &**val {
                    SaveValue::SaveArray(opa) => {
                        read_owned_provinces(pv, c, opa);
                    },
                    _ => {},
                }
            } else if *name == String::from_str("allies") {
                match &**val {
                    SaveValue::SaveArray(allies) => {
                        push_string_items(&mut c.allies, allies);
                    },
                    _ => {},
                }
            } else if *name == String::from_str("subjects") {
                match &**val {
                    SaveValue::SaveArray(subs) => {
                        push_string_items(&mut c.subjects, subs);
                    },
                    _ => {},
                }
            }
        },
        _ => {},
    }
}

/// The nation whose tag is `ta` and whose information is `info`; the
/// provinces it owns get it as owner.
fn read_nation(ta: &String, info: &Vec<Box<SaveValue>>, pv: &mut Vec<Province>) -> (c: Nation)
    ensures
        (c@, provinces_view(final(pv)@)) == apply_info(
            default_nation(ta@),
            provinces_view(old(pv)@),
            items_view(info@),
        ),
{
    let mut c = Nation {
        id: 1,
        name: ta.clone(),
        tag: ta.clone(),
        color_r: 0,
        color_g: 0,
        color_b: 0,
        rank: 1,
        gov_type: String::from_str("Království"),
        religion: String::from_str("Hussite"),
        allies: Vec::new(),
        subjects: Vec::new(),
    };
    let ghost p0 = provinces_view(pv@);
    let ghost iv = items_view(info@);
    proof {
        lemma_items_view(info@);
        assert(iv.take(0) =~= Seq::<SpecValue>::empty());
        assert(strings_view(c.allies@) =~= Seq::<Seq<char>>::empty());
        assert(strings_view(c.subjects@) =~= Seq::<Seq<char>>::empty());
        assert(c@ == default_nation(ta@));
    }
    let mut i: usize = 0;
    while i < info.len()
        invariant
            i <= info@.len(),
            iv == items_view(info@),
            iv.len() == info@.len(),
            forall|k: int| 0 <= k < info@.len() ==> #[trigger] iv[k] == value_view(*info@[k]),
            (c@, provinces_view(pv@)) == apply_info(default_nation(ta@), p0, iv.take(i as int)),
        decreases info@.len() - i,
    {
        proof {
            reveal_with_fuel(value_view, 2);
            assert(iv.take(i + 1).drop_last() =~= iv.take(i as int));
            assert(iv.take(i + 1).last() == value_view(*info@[i as int]));
        }
        read_info_entry(&mut c, pv, &info[i]);
        i += 1;
    }
    assert(iv.take(i as int) =~= iv);
    c
}

/// Reads the entries of a `countries` array: each object whose value is an
/// array adds a nation.
fn read_countries(countries: &mut Vec<Nation>, pv: &mut Vec<Province>, a: &Vec<Box<SaveValue>>)
    ensures
        (nations_view(final(countries)@), provinces_view(final(pv)@)) == apply_countries(
            (nations_view(old(countries)@), provinces_view(old(pv)@)),
            items_view(a@),
        ),
{
    let ghost acc0 = (nations_view(countries@), provinces_view(pv@));
    let ghost iv = items_view(a@);
    proof {
        lemma_items_view(a@);
        assert(iv.take(0) =~= Seq::<SpecValue>::empty());
    }
    let mut i: usize = 0;
    while i < a.len()
        invariant
            i <= a@.len(),
            iv == items_view(a@),
            iv.len() == a@.len(),
            forall|k: int| 0 <= k < a@.len() ==> #[trigger] iv[k] == value_view(*a@[k]),
            (nations_view(countries@), provinces_view(pv@)) == apply_countries(
                acc0,
                iv.take(i as int),
            ),
        decreases a@.len() - i,
    {
        proof {
            reveal_with_fuel(value_view, 2);
            assert(iv.take(i + 1).drop_last() =~= iv.take(i as int));
            assert(iv.take(i + 1).last() == value_view(*a@[i as int]));
        }
        match &*a[i] {
            SaveValue::SaveObject(ta, inf) => {
                match &**inf {
                    SaveValue::SaveArray(info_arr) => {
                        let c = read_nation(ta, info_arr, pv);
                        let ghost before = countries@;
                        countries.push(c);
                        proof {
                            assert(nations_view(countries@) =~= nations_view(before).push(c@));
                        }
                    },
                    _ => {},
                }
            },
            _ => {},
        }
        i += 1;
    }
    assert(iv.take(i as int) =~= iv);
}

/// The nations of a parsed save game, in the order of the entries of its
/// `countries` objects, each read from its entries (see `info_step`). The
/// provinces of `pv` that a nation's `owned_provinces` name get that nation
/// (as it is at that entry) as owner.
pub fn from_savevalues(sv: &Vec<Box<SaveValue>>, pv: &mut Vec<Province>) -> (countries: Vec<
    Nation,
>)
    ensures
        (nations_view(countries@), provinces_view(final(pv)@)) == nations_of(
            (seq![], provinces_view(old(pv)@)),
            items_view(sv@),
        ),
{
    let mut countries: Vec<Nation> = Vec::new();
    let ghost p0 = provinces_view(pv@);
    let ghost iv = items_view(sv@);
    proof {
        lemma_items_view(sv@);
        assert(iv.take(0) =~= Seq::<SpecValue>::empty());
        assert(nations_view(countries@) =~= Seq::<NationView>::empty());
    }
    let mut i: usize = 0;
    while i < sv.len()
        invariant
            i <= sv@.len(),
            iv == items_view(sv@),
            iv.len() == sv@.len(),
            forall|k: int| 0 <= k < sv@.len() ==> #[trigger] iv[k] == value_view(*sv@[k]),
            (nations_view(countries@), provinces_view(pv@)) == nations_of(
                (seq![], p0),
                iv.take(i as int),
            ),
        decreases sv@.len() - i,
    {
        proof {
            reveal_with_fuel(value_view, 2);
            assert(iv.take(i + 1).drop_last() =~= iv.take(i as int));
            assert(iv.take(i + 1).last() == value_view(*sv@[i as int]));
        }
        match &*sv[i] {
            SaveValue::SaveObject(v, u) => {
                if *v == String::from_str("countries") {
                    match &**u {
                        SaveValue::SaveArray(a) => {
                            read_countries(&mut countries, pv, a);
                        },
                        _ => {},
                    }
                }
            },
            _ => {},
        }
        i += 1;
    }
    assert(iv.take(i as int) =~= iv);
    countries
}


/// The tags of the nations of a parsed save game, in order (see
/// `from_savevalues`).
pub open spec fn nation_tags_of(sv: Seq<SpecValue>) -> Seq<Seq<char>> {
    nations_of((seq![], seq![]), sv).0.map_values(|n: NationView| n.tag)
}

proof fn lemma_apply_info_nation(c: NationView, pv1: Seq<ProvinceView>, pv2: Seq<ProvinceView>, entries: Seq<SpecValue>)
    ensures
        apply_info(c, pv1, entries).0 == apply_info(c, pv2, entries).0,
    decreases entries.len(),
{
    if entries.len() > 0 {
        lemma_apply_info_nation(c, pv1, pv2, entries.drop_last());
        let (c1, q1) = apply_info(c, pv1, entries.drop_last());
        let (c2, q2) = apply_info(c, pv2, entries.drop_last());
        assert(info_step(c1, q1, entries.last()).0 == info_step(c2, q2, entries.last()).0);
    }
}

proof fn lemma_apply_countries_nations(
    n0: Seq<NationView>,
    pv1: Seq<ProvinceView>,
    pv2: Seq<ProvinceView>,
    a: Seq<SpecValue>,
)
    ensures
        apply_countries((n0, pv1), a).0 == apply_countries((n0, pv2), a).0,
    decreases a.len(),
{
    if a.len() > 0 {
        lemma_apply_countries_nations(n0, pv1, pv2, a.drop_last());
        let b1 = apply_countries((n0, pv1), a.drop_last());
        let b2 = apply_countries((n0, pv2), a.drop_last());
        if let SpecValue::Object(tag, inf) = a.last() {
            if let SpecValue::Array(info) = *inf {
                lemma_apply_info_nation(default_nation(tag), b1.1, b2.1, info);
            }
        }
    }
}

proof fn lemma_nations_of_nations(n0: Seq<NationView>, pv1: Seq<ProvinceView>, pv2: Seq<ProvinceView>, sv: Seq<SpecValue>)
    ensures
        nations_of((n0, pv1), sv).0 == nations_of((n0, pv2), sv).0,
    decreases sv.len(),
{
    if sv.len() > 0 {
        lemma_nations_of_nations(n0, pv1, pv2, sv.drop_last());
        let b1 = nations_of((n0, pv1), sv.drop_last());
        let b2 = nations_of((n0, pv2), sv.drop_last());
        if let SpecValue::Object(key, u) = sv.last() {
            if let SpecValue::Array(a) = *u {
                lemma_apply_countries_nations(b1.0, b1.1, b2.1, a);
                assert(b1.0 == b2.0);
                assert((b1.0, b2.1) == b2);
            }
        }
    }
}

/// The nations read from a save game do not depend on the provinces whose
/// owners are set: `from_savevalues` returns the same nations whatever
/// provinces it is given, and `get_tags_from_savevalues` gives their tags.
pub proof fn lemma_nations_ignore_provinces(pv1: Seq<ProvinceView>, pv2: Seq<ProvinceView>, sv: Seq<SpecValue>)
    ensures
        nations_of((seq![], pv1), sv).0 == nations_of((seq![], pv2), sv).0,
        nation_tags_of(sv) == nations_of((seq![], pv1), sv).0.map_values(|n: NationView| n.tag),
{
    lemma_nations_of_nations(seq![], pv1, pv2, sv);
    lemma_nations_of_nations(seq![], pv1, seq![], sv);
}

/// The tags of the nations of a parsed save game, in the order in which
/// `from_savevalues` reads the nations.
pub fn get_tags_from_savevalues(sv: &Vec<Box<SaveValue>>) -> (tags: Vec<String>)
    ensures
        strings_view(tags@) == nation_tags_of(items_view(sv@)),
{
    let mut no_provinces: Vec<Province> = Vec::new();
    assert(provinces_view(no_provinces@) =~= Seq::<ProvinceView>::empty());
    let nations = from_savevalues(sv, &mut no_provinces);
    let ghost nv = nations_view(nations@);
    let mut tags: Vec<String> = Vec::new();
    let mut i: usize = 0;
    while i < nations.len()
        invariant
            i <= nations@.len(),
            nv == nations_view(nations@),
            strings_view(tags@) == nv.take(i as int).map_values(|n: NationView| n.tag),
        decreases nations@.len() - i,
    {
        let ghost before = tags@;
        tags.push(nations[i].tag.clone());
        assert(strings_view(tags@) =~= nv.take(i + 1).map_values(|n: NationView| n.tag)) by {
            assert(strings_view(tags@) =~= strings_view(before).push(nations@[i as int].tag@));
        }
        i += 1;
    }
    assert(nv.take(i as int) =~= nv);
    tags
}

} // verus!
