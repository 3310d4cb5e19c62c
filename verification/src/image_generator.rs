//! The map image: which colour each province gets, and how the image is
//! painted from the map of coordinates to provinces.
use vstd::prelude::*;
use crate::csv_table::{ReadError, csv_read, lemma_rows_view, read_csv, rows_view};
use crate::numbers::{chars_of, decimal_i32, decimal_unsigned, parse_i32_spec, parse_unsigned_spec};
use crate::game_types::{
    Color, Nation, NationView, Province, ProvinceView, contains_tag, nations_view, provinces_view,
    strings_view,
};

verus! {

/// A rectangle of the map: its upper left corner `(x, y)` and its lower
/// right corner, exclusive.
#[derive(Clone, Copy, Debug)]
pub struct ContinentCoord(pub ([u32; 2], [u32; 2]));

impl PartialEq for ContinentCoord {
    fn eq(&self, other: &Self) -> (r: bool) {
        self.0.0[0] == other.0.0[0] && self.0.0[1] == other.0.0[1] && self.0.1[0] == other.0.1[0]
            && self.0.1[1] == other.0.1[1]
    }
}

impl vstd::std_specs::cmp::PartialEqSpecImpl for ContinentCoord {
    open spec fn obeys_eq_spec() -> bool {
        true
    }

    open spec fn eq_spec(&self, other: &Self) -> bool {
        self.0.0[0] == other.0.0[0] && self.0.0[1] == other.0.0[1] && self.0.1[0] == other.0.1[0]
            && self.0.1[1] == other.0.1[1]
    }
}

impl Eq for ContinentCoord {}

impl ContinentCoord {
    /// The left edge.
    pub open spec fn x0(&self) -> u32 {
        self.0.0[0]
    }

    /// The top edge.
    pub open spec fn y0(&self) -> u32 {
        self.0.0[1]
    }

    /// The right edge, exclusive.
    pub open spec fn x1(&self) -> u32 {
        self.0.1[0]
    }

    /// The bottom edge, exclusive.
    pub open spec fn y1(&self) -> u32 {
        self.0.1[1]
    }

    /// The rectangle with the corners `(x0, y0)` and `(x1, y1)`.
    pub fn new(x0: u32, y0: u32, x1: u32, y1: u32) -> (c: ContinentCoord)
        ensures
            c.x0() == x0 && c.y0() == y0 && c.x1() == x1 && c.y1() == y1,
    {
        ContinentCoord(([x0, y0], [x1, y1]))
    }

    /// The left edge.
    pub fn left(&self) -> (r: u32)
        ensures
            r == self.x0(),
    {
        self.0.0[0]
    }

    /// The top edge.
    pub fn top(&self) -> (r: u32)
        ensures
            r == self.y0(),
    {
        self.0.0[1]
    }

    /// The right edge, exclusive.
    pub fn right(&self) -> (r: u32)
        ensures
            r == self.x1(),
    {
        self.0.1[0]
    }

    /// The bottom edge, exclusive.
    pub fn bottom(&self) -> (r: u32)
        ensures
            r == self.y1(),
    {
        self.0.1[1]
    }

    /// The whole map.
    pub fn all() -> (c: ContinentCoord)
        ensures
            c.x0() == 0 && c.y0() == 0 && c.x1() == 5632 && c.y1() == 2048,
    {
        ContinentCoord::new(0, 0, 5632, 2048)
    }

    /// North America.
    pub fn north_america() -> (c: ContinentCoord)
        ensures
            c.x0() == 0 && c.y0() == 0 && c.x1() == 2200 && c.y1() == 1130,
    {
        ContinentCoord::new(0, 0, 2200, 1130)
    }

    /// South America.
    pub fn south_america() -> (c: ContinentCoord)
        ensures
            c.x0() == 1170 && c.y0() == 930 && c.x1() == 2500 && c.y1() == 2048,
    {
        ContinentCoord::new(1170, 930, 2500, 2048)
    }

    /// Europe.
    pub fn europe() -> (c: ContinentCoord)
        ensures
            c.x0() == 2330 && c.y0() == 0 && c.x1() == 3600 && c.y1() == 950,
    {
        ContinentCoord::new(2330, 0, 3600, 950)
    }

    /// Africa.
    pub fn africa() -> (c: ContinentCoord)
        ensures
            c.x0() == 2280 && c.y0() == 700 && c.x1() == 3850 && c.y1() == 2048,
    {
        ContinentCoord::new(2280, 700, 3850, 2048)
    }

    /// Asia.
    pub fn asia() -> (c: ContinentCoord)
        ensures
            c.x0() == 3280 && c.y0() == 290 && c.x1() == 5632 && c.y1() == 1600,
    {
        ContinentCoord::new(3280, 290, 5632, 1600)
    }

    /// South-east Asia and Oceania.
    pub fn se_asia_oceania() -> (c: ContinentCoord)
        ensures
            c.x0() == 4200 && c.y0() == 1080 && c.x1() == 5632 && c.y1() == 2048,
    {
        ContinentCoord::new(4200, 1080, 5632, 2048)
    }

    /// India and Persia.
    pub fn india_persia() -> (c: ContinentCoord)
        ensures
            c.x0() == 3440 && c.y0() == 780 && c.x1() == 4370 && c.y1() == 1385,
    {
        ContinentCoord::new(3440, 780, 4370, 1385)
    }

    /// South-east Asia.
    pub fn se_asia() -> (c: ContinentCoord)
        ensures
            c.x0() == 4100 && c.y0() == 380 && c.x1() == 5300 && c.y1() == 1460,
    {
        ContinentCoord::new(4100, 380, 5300, 1460)
    }
}

/// What the map shows.
///
/// The blend factor is kept as what the blending reads of it:
/// `blend_fractions[v]` is the factor applied to the channel value `v`
/// (the caller computes `(v as f32 * factor) as u8` for each of the 256
/// values).
#[derive(Clone)]
pub struct ImageOptions {
    pub show_subjects: bool,
    pub blend_subjects: bool,
    pub show_allies: bool,
    pub blend_allies: bool,
    pub blend_fractions: Vec<u8>,
    pub sub_overlord_col: bool,
    pub show_all: bool,
    pub continent: ContinentCoord,
}

impl ImageOptions {
    /// The blend table has an entry for each channel value.
    pub open spec fn wf(&self) -> bool {
        self.blend_fractions@.len() == 256
    }
}

/// The grey of provinces that are not shown.
pub open spec fn gray() -> Color {
    Color { r: 125, g: 125, b: 125 }
}

/// The colour of the sea and of lakes.
pub open spec fn sea_color() -> Color {
    Color { r: 25, g: 100, b: 160 }
}

/// A nation's colour.
pub open spec fn nation_color(n: NationView) -> Color {
    Color { r: n.color_r, g: n.color_g, b: n.color_b }
}

/// One channel shifted by `fraction`: down where that stays at or above
/// zero, else up, and to 255 where that would pass 255.
pub open spec fn blend_value(original: u8, fraction: u8) -> u8 {
    if original >= fraction {
        (original - fraction) as u8
    } else if 255 - fraction < original {
        255
    } else {
        (original + fraction) as u8
    }
}

/// The colour `lord` shifted, channel by channel, by the blend factor
/// applied to the channels of `sub`.
pub open spec fn blend(lord: Color, sub: Color, fractions: Seq<u8>) -> Color {
    Color {
        r: blend_value(lord.r, fractions[sub.r as int]),
        g: blend_value(lord.g, fractions[sub.g as int]),
        b: blend_value(lord.b, fractions[sub.b as int]),
    }
}

/// Blends one channel: `original` shifted by the blend factor applied to `sub`.
pub fn blend_colors(original: u8, sub: u8, blend_fractions: &Vec<u8>) -> (r: u8)
    requires
        blend_fractions@.len() == 256,
    ensures
        r == blend_value(original, blend_fractions@[sub as int]),
{
    let mut ret = original;
    let fraction = blend_fractions[sub as usize];
    if original >= fraction {
        ret -= fraction;
    } else {
        if 255 - fraction < ret {
            ret = 255;
        } else {
            ret += fraction;
        }
    }
    ret
}

/// Where the search through the nations for the owner's allies and
/// overlords stands: the overlord's (or ally's) colour, the owner's colour
/// once its own entry was passed, and whether an ally or an overlord was found.
pub struct Scan {
    pub lord: Color,
    pub sub: Color,
    pub is_ally: bool,
    pub is_subject: bool,
}

/// The search, or its end at an overlord whose colour the province takes.
pub enum ScanResult {
    Going(Scan),
    Overlord(Color),
}

/// One nation `n` of the search for the owner's ally or overlord among the
/// nations shown (`country_tags`, or all with `show_all`).
pub open spec fn scan_step(
    st: ScanResult,
    n: NationView,
    owner: NationView,
    country_tags: Seq<Seq<char>>,
    opt: ImageOptions,
) -> ScanResult {
    match st {
        ScanResult::Overlord(c) => ScanResult::Overlord(c),
        ScanResult::Going(s) => {
            let s1 = if n.tag == owner.tag {
                Scan { sub: nation_color(owner), ..s }
            } else {
                s
            };
            if !country_tags.contains(n.tag) && !opt.show_all {
                ScanResult::Going(s1)
            } else {
                let s2 = if opt.show_allies && !s1.is_ally && n.allies.contains(owner.tag) {
                    Scan { is_ally: true, lord: nation_color(n), ..s1 }
                } else {
                    s1
                };
                if opt.show_subjects && !s2.is_subject && n.subjects.contains(owner.tag) {
                    if opt.sub_overlord_col {
                        ScanResult::Overlord(nation_color(n))
                    } else {
                        ScanResult::Going(Scan { is_subject: true, lord: nation_color(n), ..s2 })
                    }
                } else {
                    ScanResult::Going(s2)
                }
            }
        },
    }
}

/// The search through the nations `ns`, in order.
pub open spec fn scan_nations(
    ns: Seq<NationView>,
    owner: NationView,
    country_tags: Seq<Seq<char>>,
    opt: ImageOptions,
) -> ScanResult
    decreases ns.len(),
{
    if ns.len() == 0 {
        ScanResult::Going(
            Scan {
                lord: Color { r: 0, g: 0, b: 0 },
                sub: Color { r: 0, g: 0, b: 0 },
                is_ally: false,
                is_subject: false,
            },
        )
    } else {
        scan_step(scan_nations(ns.drop_last(), owner, country_tags, opt), ns.last(), owner, country_tags, opt)
    }
}

/// The colour of a province whose owner is `owner`.
///
/// With `show_all` (and without `sub_overlord_col`) it is the owner's colour.
/// Else an owner outside `country_tags_all` is grey (without `show_all`),
/// an owner in `country_tags` has its own colour, and otherwise the nations
/// are searched for one shown that has the owner as ally or subject: a
/// subject's province takes its overlord's colour with `sub_overlord_col`,
/// else the owner's colour, blended with the overlord's (or ally's) where
/// the options say so; one that is neither is grey (or, with `show_all`,
/// the owner's colour).
pub open spec fn owner_color(
    owner: NationView,
    country_tags_all: Seq<Seq<char>>,
    country_tags: Seq<Seq<char>>,
    countries: Seq<NationView>,
    opt: ImageOptions,
) -> Color {
    if opt.show_all && !opt.sub_overlord_col {
        nation_color(owner)
    } else if !country_tags_all.contains(owner.tag) && !opt.show_all {
        gray()
    } else if country_tags.contains(owner.tag) {
        nation_color(owner)
    } else {
        match scan_nations(countries, owner, country_tags, opt) {
            ScanResult::Overlord(c) => c,
            ScanResult::Going(s) => if opt.show_all && !s.is_subject {
                s.sub
            } else if s.is_subject {
                if opt.blend_subjects {
                    blend(s.lord, s.sub, opt.blend_fractions@)
                } else {
                    s.sub
                }
            } else if s.is_ally {
                if opt.blend_allies {
                    blend(s.lord, s.sub, opt.blend_fractions@)
                } else {
                    s.sub
                }
            } else {
                gray()
            },
        }
    }
}

/// The colour of a province that has an owner (see `owner_color`).
pub fn get_province_color_for_country(
    p: &Province,
    country_tags_all: &Vec<String>,
    country_tags: &Vec<String>,
    countries: &Vec<Nation>,
    opt: &ImageOptions,
) -> (c: Color)
    requires
        p.owner is Some,
        opt.wf(),
    ensures
        c == owner_color(
            p@.owner->0,
            strings_view(country_tags_all@),
            strings_view(country_tags@),
            nations_view(countries@),
            *opt,
        ),
{
    let px_col = Color { r: 125, g: 125, b: 125 };
    let owner = match &p.owner {
        Some(o) => o,
        None => return px_col,
    };
    let ghost ov = owner@;
    let ghost ct = strings_view(country_tags@);
    if opt.show_all && !opt.sub_overlord_col {
        return Color { r: owner.color_r, g: owner.color_g, b: owner.color_b };
    }
    if !contains_tag(country_tags_all, &owner.tag) && !opt.show_all {
        return px_col;
    }
    if contains_tag(country_tags, &owner.tag) {
        return Color { r: owner.color_r, g: owner.color_g, b: owner.color_b };
    }
    let mut lord = Color { r: 0, g: 0, b: 0 };
    let mut sub = Color { r: 0, g: 0, b: 0 };
    let mut is_ally = false;
    let mut is_subject = false;
    let ghost nv = nations_view(countries@);
    let mut i: usize = 0;
    proof {
        assert(nv.take(0) =~= Seq::<NationView>::empty());
    }
    while i < countries.len()
        invariant
            i <= countries@.len(),
            nv == nations_view(countries@),
            ov == owner@,
            ct == strings_view(country_tags@),
            p@.owner == Some(ov),
            opt.wf(),
            !(opt.show_all && !opt.sub_overlord_col),
            !(!strings_view(country_tags_all@).contains(ov.tag) && !opt.show_all),
            !ct.contains(ov.tag),
            scan_nations(nv.take(i as int), ov, ct, *opt) == ScanResult::Going(
                Scan { lord, sub, is_ally, is_subject },
            ),
        decreases countries@.len() - i,
    {
        let n = &countries[i];
        proof {
            assert(nv.take(i + 1).drop_last() =~= nv.take(i as int));
            assert(nv.take(i + 1).last() == n@);
        }
        if n.tag == owner.tag {
            sub = Color { r: owner.color_r, g: owner.color_g, b: owner.color_b };
        }
        if !contains_tag(country_tags, &n.tag) && !opt.show_all {
            i += 1;
            continue;
        }
        if opt.show_allies && !is_ally {
            if contains_tag(&n.allies, &owner.tag) {
                is_ally = true;
                lord = Color { r: n.color_r, g: n.color_g, b: n.color_b };
            }
        }
        if opt.show_subjects && !is_subject {
            if contains_tag(&n.subjects, &owner.tag) {
                if opt.sub_overlord_col {
                    proof {
                        assert(scan_nations(nv.take(i + 1), ov, ct, *opt) == ScanResult::Overlord(
                            nation_color(n@),
                        ));
                        lemma_scan_overlord_stays(nv, i as int + 1, ov, ct, *opt);
                        assert(nv.take(countries@.len() as int) =~= nv);
                    }
                    return Color { r: n.color_r, g: n.color_g, b: n.color_b };
                }
                is_subject = true;
                lord = Color { r: n.color_r, g: n.color_g, b: n.color_b };
            }
        }
        i += 1;
    }
    proof {
        assert(nv.take(i as int) =~= nv);
    }
    if opt.show_all && !is_subject {
        return sub;
    }
    let mut px_col = px_col;
    if is_ally {
        if opt.blend_allies {
            let red = blend_colors(lord.r, sub.r, &opt.blend_fractions);
            let green = blend_colors(lord.g, sub.g, &opt.blend_fractions);
            let blue = blend_colors(lord.b, sub.b, &opt.blend_fractions);
            px_col = Color { r: red, g: green, b: blue };
        } else {
            px_col = sub;
        }
    }
    if is_subject {
        if opt.blend_subjects {
            let red = blend_colors(lord.r, sub.r, &opt.blend_fractions);
            let green = blend_colors(lord.g, sub.g, &opt.blend_fractions);
            let blue = blend_colors(lord.b, sub.b, &opt.blend_fractions);
            px_col = Color { r: red, g: green, b: blue };
        } else {
            px_col = sub;
        }
    }
    px_col
}


/// An image of RGB pixels, row by row: `rows[y][x]` is the pixel at `(x, y)`.
pub struct RgbImage {
    pub width: u32,
    pub height: u32,
    pub rows: Vec<Vec<Color>>,
}

/// The image of `width` by `height` black pixels.
pub open spec fn black_image(width: nat, height: nat) -> Seq<Seq<Color>> {
    Seq::new(height, |y: int| Seq::new(width, |x: int| Color { r: 0, g: 0, b: 0 }))
}

impl RgbImage {
    /// There are `height` rows of `width` pixels.
    pub open spec fn wf(&self) -> bool {
        &&& self.rows@.len() == self.height
        &&& forall|y: int| 0 <= y < self.rows@.len() ==> #[trigger] self.rows@[y]@.len() == self.width
    }

    /// The pixels, row by row.
    pub open spec fn pixels(&self) -> Seq<Seq<Color>> {
        self.rows@.map_values(|r: Vec<Color>| r@)
    }

    /// A black image of `width` by `height` pixels.
    pub fn new(width: u32, height: u32) -> (img: RgbImage)
        ensures
            img.wf(),
            img.width == width,
            img.height == height,
            img.pixels() == black_image(width as nat, height as nat),
    {
        let mut rows: Vec<Vec<Color>> = Vec::new();
        let mut y: u32 = 0;
        while y < height
            invariant
                y <= height,
                rows@.len() == y,
                forall|j: int| 0 <= j < y ==> #[trigger] rows@[j]@ == Seq::new(
                    width as nat,
                    |x: int| Color { r: 0, g: 0, b: 0 },
                ),
            decreases height - y,
        {
            let mut row: Vec<Color> = Vec::new();
            let mut x: u32 = 0;
            while x < width
                invariant
                    x <= width,
                    row@ == Seq::new(x as nat, |i: int| Color { r: 0, g: 0, b: 0 }),
                decreases width - x,
            {
                row.push(Color { r: 0, g: 0, b: 0 });
                x += 1;
                assert(row@ =~= Seq::new(x as nat, |i: int| Color { r: 0, g: 0, b: 0 }));
            }
            rows.push(row);
            y += 1;
        }
        let img = RgbImage { width, height, rows };
        assert(img.pixels() =~= black_image(width as nat, height as nat));
        img
    }

    /// Sets the pixel at `(x, y)` to `c`.
    pub fn put_pixel(&mut self, x: u32, y: u32, c: Color)
        requires
            old(self).wf(),
            x < old(self).width,
            y < old(self).height,
        ensures
            final(self).wf(),
            final(self).width == old(self).width,
            final(self).height == old(self).height,
            final(self).pixels() == old(self).pixels().update(
                y as int,
                old(self).pixels()[y as int].update(x as int, c),
            ),
    {
        let ghost before = self.pixels();
        self.rows[y as usize].set(x as usize, c);
        assert(self.pixels() =~= before.update(y as int, before[y as int].update(x as int, c)));
    }
}


/// `acc` with each of `items` that it does not hold yet added at the end, in order.
pub open spec fn add_missing(acc: Seq<Seq<char>>, items: Seq<Seq<char>>) -> Seq<Seq<char>>
    decreases items.len(),
{
    if items.len() == 0 {
        acc
    } else {
        let a = add_missing(acc, items.drop_last());
        if a.contains(items.last()) {
            a
        } else {
            a.push(items.last())
        }
    }
}

/// One nation of the tags shown: a nation of `country_tags` adds its allies
/// (with `show_allies`) and its subjects (with `show_subjects`).
pub open spec fn partner_tags_step(
    acc: Seq<Seq<char>>,
    n: NationView,
    country_tags: Seq<Seq<char>>,
    opt: ImageOptions,
) -> Seq<Seq<char>> {
    if country_tags.contains(n.tag) {
        let a1 = if opt.show_allies {
            add_missing(acc, n.allies)
        } else {
            acc
        };
        if opt.show_subjects {
            add_missing(a1, n.subjects)
        } else {
            a1
        }
    } else {
        acc
    }
}

/// The allies and subjects shown, of the nations `ns` in order.
pub open spec fn partner_tags(ns: Seq<NationView>, country_tags: Seq<Seq<char>>, opt: ImageOptions) -> Seq<
    Seq<char>,
>
    decreases ns.len(),
{
    if ns.len() == 0 {
        seq![]
    } else {
        partner_tags_step(partner_tags(ns.drop_last(), country_tags, opt), ns.last(), country_tags, opt)
    }
}

/// The tags shown on the map: the allies and subjects shown, then the
/// nations asked for, each once.
pub open spec fn shown_tags(country_tags: Seq<Seq<char>>, ns: Seq<NationView>, opt: ImageOptions) -> Seq<
    Seq<char>,
> {
    add_missing(partner_tags(ns, country_tags, opt), country_tags)
}

/// Adds to `acc` each of `items` that it does not hold yet.
fn push_missing(acc: &mut Vec<String>, items: &Vec<String>)
    ensures
        strings_view(final(acc)@) == add_missing(strings_view(old(acc)@), strings_view(items@)),
{
    let ghost a0 = strings_view(acc@);
    let ghost iv = strings_view(items@);
    let mut i: usize = 0;
    assert(iv.take(0) =~= Seq::<Seq<char>>::empty());
    while i < items.len()
        invariant
            i <= items@.len(),
            iv == strings_view(items@),
            strings_view(acc@) == add_missing(a0, iv.take(i as int)),
        decreases items@.len() - i,
    {
        proof {
            assert(iv.take(i + 1).drop_last() =~= iv.take(i as int));
            assert(iv.take(i + 1).last() == items@[i as int]@);
        }
        if !contains_tag(acc, &items[i]) {
            let ghost before = acc@;
            acc.push(items[i].clone());
            assert(strings_view(acc@) =~= strings_view(before).push(items@[i as int]@));
        }
        i += 1;
    }
    assert(iv.take(i as int) =~= iv);
}

/// The tags shown on the map (see `shown_tags`).
pub fn shown_country_tags(country_tags: &Vec<String>, countries: &Vec<Nation>, opt: &ImageOptions) -> (r: Vec<
    String,
>)
    ensures
        strings_view(r@) == shown_tags(strings_view(country_tags@), nations_view(countries@), *opt),
{
    let ghost ct = strings_view(country_tags@);
    let ghost nv = nations_view(countries@);
    let mut country_tags_all: Vec<String> = Vec::new();
    let mut i: usize = 0;
    assert(nv.take(0) =~= Seq::<NationView>::empty());
    assert(strings_view(country_tags_all@) =~= Seq::<Seq<char>>::empty());
    while i < countries.len()
        invariant
            i <= countries@.len(),
            ct == strings_view(country_tags@),
            nv == nations_view(countries@),
            strings_view(country_tags_all@) == partner_tags(nv.take(i as int), ct, *opt),
        decreases countries@.len() - i,
    {
        let n = &countries[i];
        proof {
            assert(nv.take(i + 1).drop_last() =~= nv.take(i as int));
            assert(nv.take(i + 1).last() == n@);
        }
        if contains_tag(country_tags, &n.tag) {
            if opt.show_allies {
                push_missing(&mut country_tags_all, &n.allies);
            }
            if opt.show_subjects {
                push_missing(&mut country_tags_all, &n.subjects);
            }
        }
        i += 1;
    }
    assert(nv.take(i as int) =~= nv);
    push_missing(&mut country_tags_all, country_tags);
    country_tags_all
}

/// The first province of `pv` whose id is `id`.
pub open spec fn find_province(pv: Seq<ProvinceView>, id: int) -> Option<ProvinceView>
    decreases pv.len(),
{
    if pv.len() == 0 {
        None
    } else if pv[0].id as int == id {
        Some(pv[0])
    } else {
        find_province(pv.drop_first(), id)
    }
}

/// The index of the first province of `pv` whose id is `id`.
pub(crate) fn find_province_index(pv: &Vec<Province>, id: i32) -> (r: Option<usize>)
    ensures
        match r {
            Some(k) => k < pv@.len() && find_province(provinces_view(pv@), id as int) == Some(
                pv@[k as int]@,
            ),
            None => find_province(provinces_view(pv@), id as int) is None,
        },
{
    let ghost v = provinces_view(pv@);
    let mut k: usize = 0;
    assert(v.skip(0) =~= v);
    while k < pv.len()
        invariant
            k <= pv@.len(),
            v == provinces_view(pv@),
            find_province(v.skip(k as int), id as int) == find_province(v, id as int),
        decreases pv@.len() - k,
    {
        assert(v.skip(k as int)[0] == pv@[k as int]@);
        if pv[k].id as i32 == id {
            return Some(k);
        }
        assert(v.skip(k as int).drop_first() =~= v.skip(k + 1));
        k += 1;
    }
    None
}

/// What the painting of a map needs besides the coordinates: the provinces,
/// the nations asked for, the tags shown, the nations, the options, the size
/// of the image, and whether `owner_color` gets the two lists of tags
/// crosswise.
pub struct MapContext {
    pub provinces: Seq<ProvinceView>,
    pub country_tags: Seq<Seq<char>>,
    pub country_tags_all: Seq<Seq<char>>,
    pub countries: Seq<NationView>,
    pub opt: ImageOptions,
    pub width: int,
    pub height: int,
    pub crosswise: bool,
}

/// The colour of a run of pixels of the province `p` (grey where there is
/// no such province): an owned province's colour comes from
/// `owner_color`, which gets the tags shown where it expects the tags shown
/// and the nations asked for where it expects those, or, `crosswise`, the
/// nations asked for where it expects the tags shown and the tags shown
/// where it expects the nations asked for (as the web map draws it); an
/// unused province is grey, sea and lakes are blue, and the rest grey.
pub open spec fn run_color(p: Option<ProvinceView>, ctx: MapContext) -> Color {
    match p {
        None => gray(),
        Some(p) => match p.owner {
            Some(o) => if ctx.crosswise {
                owner_color(o, ctx.country_tags, ctx.country_tags_all, ctx.countries, ctx.opt)
            } else {
                owner_color(o, ctx.country_tags_all, ctx.country_tags, ctx.countries, ctx.opt)
            },
            None => if !p.is_used {
                gray()
            } else if p.is_lake || p.is_sea {
                sea_color()
            } else {
                gray()
            },
        },
    }
}

/// The colour of the last run, which is painted on the bottom row: an owned
/// province takes its owner's colour where the owner is asked for and is
/// left as it is otherwise; an unused province is grey, sea and lakes are
/// blue, the rest grey; without a province nothing is painted.
pub open spec fn last_run_color(p: Option<ProvinceView>, ctx: MapContext) -> Option<Color> {
    match p {
        None => None,
        Some(p) => match p.owner {
            Some(o) => if ctx.country_tags.contains(o.tag) {
                Some(nation_color(o))
            } else {
                None
            },
            None => if !p.is_used {
                Some(gray())
            } else if p.is_lake || p.is_sea {
                Some(sea_color())
            } else {
                Some(gray())
            },
        },
    }
}

/// The image with the pixels `x0 <= x < x1` of row `y` painted `c`.
pub open spec fn paint_row(img: Seq<Seq<Color>>, y: int, x0: int, x1: int, c: Color) -> Seq<Seq<Color>> {
    img.update(y, Seq::new(img[y].len(), |x: int| if x0 <= x < x1 { c } else { img[y][x] }))
}

/// The width of the web map's image.
pub open spec fn map_width() -> int {
    5632
}

/// The height of the web map's image.
pub open spec fn map_height() -> int {
    2048
}

/// Where the painting stands: the image, and the previous coordinate record.
pub struct PaintState {
    pub img: Seq<Seq<Color>>,
    pub prev_id: i32,
    pub prev_x: u32,
    pub prev_y: u32,
}

/// The painting before any record: a black image of the context's size.
pub open spec fn paint_start(ctx: MapContext) -> PaintState {
    PaintState {
        img: black_image(ctx.width as nat, ctx.height as nat),
        prev_id: -1i32,
        prev_x: 0,
        prev_y: 0,
    }
}

/// Where the run that a record `(x, y, id)` closes ends, in an image
/// `width` pixels wide: at `x`, or at the last column where `x` is 0.
pub open spec fn run_end(x: u32, width: int) -> int {
    if x == 0 {
        width - 1
    } else {
        x as int
    }
}

/// A run closed by the record `rec` after the record `prev` lies within an
/// image of `width` by `height` pixels (or is empty), and its end is a
/// column of the image where `rec`'s `x` is 0.
pub open spec fn pair_fits(prev: (u32, u32, i32), rec: (u32, u32, i32), width: int, height: int) -> bool {
    prev.2 == -1 || ((rec.0 != 0 || width >= 1) && (prev.0 >= run_end(rec.0, width) || (prev.1
        < height && run_end(rec.0, width) <= width)))
}

/// Every run of the records lies within an image of `width` by `height` pixels.
pub open spec fn runs_fit(recs: Seq<(u32, u32, i32)>, width: int, height: int) -> bool {
    forall|k: int| 1 <= k < recs.len() ==> pair_fits(#[trigger] recs[k - 1], recs[k], width, height)
}

/// The run that the record `rec` closes lies within the image (see `pair_fits`).
pub open spec fn run_fits(st: PaintState, rec: (u32, u32, i32), ctx: MapContext) -> bool {
    pair_fits((st.prev_x, st.prev_y, st.prev_id), rec, ctx.width, ctx.height)
}

/// One record `(x, y, id)` of the coordinates: it closes the run of the
/// previous record's province, from the previous `x` up to `x` on the
/// previous row (up to the last column where `x` is 0), and becomes the
/// previous record. A first record (or one after the id -1) only becomes
/// the previous record.
pub open spec fn paint_step(st: PaintState, rec: (u32, u32, i32), ctx: MapContext) -> PaintState {
    let next = PaintState { prev_id: rec.2, prev_x: rec.0, prev_y: rec.1, ..st };
    if st.prev_id == -1 || st.prev_x >= run_end(rec.0, ctx.width) {
        next
    } else {
        PaintState {
            img: paint_row(
                st.img,
                st.prev_y as int,
                st.prev_x as int,
                run_end(rec.0, ctx.width),
                run_color(find_province(ctx.provinces, st.prev_id as int), ctx),
            ),
            ..next
        }
    }
}

/// The painting after the records `recs`, or `None` where a run falls
/// outside the image.
pub open spec fn paint_records(ctx: MapContext, recs: Seq<(u32, u32, i32)>) -> Option<PaintState>
    decreases recs.len(),
{
    if recs.len() == 0 {
        Some(paint_start(ctx))
    } else {
        match paint_records(ctx, recs.drop_last()) {
            Some(st) => if run_fits(st, recs.last(), ctx) {
                Some(paint_step(st, recs.last(), ctx))
            } else {
                None
            },
            None => None,
        }
    }
}

/// The last run can be painted: it is empty, has no province, or the image
/// has a bottom row.
pub open spec fn finish_fits(st: PaintState, ctx: MapContext) -> bool {
    !(st.prev_x < ctx.width && find_province(ctx.provinces, st.prev_id as int) is Some && ctx.height
        == 0)
}

/// The image after the last run, from the last record's `x` to the right
/// edge, painted on the bottom row.
pub open spec fn paint_finish(st: PaintState, ctx: MapContext) -> Seq<Seq<Color>> {
    match last_run_color(find_province(ctx.provinces, st.prev_id as int), ctx) {
        Some(c) => if st.prev_x < ctx.width {
            paint_row(st.img, ctx.height - 1, st.prev_x as int, ctx.width, c)
        } else {
            st.img
        },
        None => st.img,
    }
}

/// The painting context of the provinces, the nations asked for, the
/// nations and the options, for an image of `width` by `height` pixels.
pub open spec fn map_context(
    all_provinces: Seq<Province>,
    country_tags: Seq<String>,
    countries: Seq<Nation>,
    opt: ImageOptions,
    width: int,
    height: int,
    crosswise: bool,
) -> MapContext {
    MapContext {
        provinces: provinces_view(all_provinces),
        country_tags: strings_view(country_tags),
        country_tags_all: shown_tags(strings_view(country_tags), nations_view(countries), opt),
        countries: nations_view(countries),
        opt: opt,
        width: width,
        height: height,
        crosswise: crosswise,
    }
}

/// The painting context of the arguments of `paint_map`: the web map,
/// 5632 by 2048 pixels, with the lists of tags crosswise.
pub open spec fn context_of(
    all_provinces: Seq<Province>,
    country_tags: Seq<String>,
    countries: Seq<Nation>,
    opt: ImageOptions,
) -> MapContext {
    map_context(all_provinces, country_tags, countries, opt, map_width(), map_height(), true)
}

/// Paints the pixels `x0 <= x < x1` of row `y` with `c`.
fn paint_run(img: &mut RgbImage, y: u32, x0: u32, x1: u32, c: Color)
    requires
        old(img).wf(),
        x0 < x1 ==> y < old(img).height && x1 <= old(img).width,
    ensures
        final(img).wf(),
        final(img).width == old(img).width,
        final(img).height == old(img).height,
        final(img).pixels() == if x0 < x1 {
            paint_row(old(img).pixels(), y as int, x0 as int, x1 as int, c)
        } else {
            old(img).pixels()
        },
{
    let ghost p0 = img.pixels();
    if x0 >= x1 {
        return;
    }
    let mut i = x0;
    assert(p0[y as int] == img.rows@[y as int]@);
    assert(paint_row(p0, y as int, x0 as int, x0 as int, c) =~~= p0);
    while i < x1
        invariant
            x0 <= i <= x1,
            y < img.height,
            x1 <= img.width,
            img.wf(),
            img.width == old(img).width,
            img.height == old(img).height,
            p0 == old(img).pixels(),
            p0.len() == img.height,
            p0[y as int].len() == img.width,
            img.pixels() == paint_row(p0, y as int, x0 as int, i as int, c),
        decreases x1 - i,
    {
        let ghost before = img.pixels();
        img.put_pixel(i, y, c);
        proof {
            let next = paint_row(p0, y as int, x0 as int, i + 1, c);
            assert(before[y as int].update(i as int, c) =~= next[y as int]);
            assert(img.pixels() =~= next);
        }
        i += 1;
    }
}

/// The colour of a run of the province with the id `prev_id` (see `run_color`).
fn run_color_of(
    all_provinces: &Vec<Province>,
    prev_id: i32,
    country_tags: &Vec<String>,
    country_tags_all: &Vec<String>,
    countries: &Vec<Nation>,
    opt: &ImageOptions,
    crosswise: bool,
) -> (c: Color)
    requires
        opt.wf(),
        strings_view(country_tags_all@) == shown_tags(
            strings_view(country_tags@),
            nations_view(countries@),
            *opt,
        ),
    ensures
        forall|w: int, h: int|
            c == #[trigger] run_color(
                find_province(provinces_view(all_provinces@), prev_id as int),
                map_context(all_provinces@, country_tags@, countries@, *opt, w, h, crosswise),
            ),
{
    let col_sea = Color { r: 25, g: 100, b: 160 };
    let col_gray = Color { r: 125, g: 125, b: 125 };
    match find_province_index(all_provinces, prev_id) {
        Some(j) => {
            let p = &all_provinces[j];
            if p.owner.is_some() {
                if crosswise {
                    get_province_color_for_country(p, country_tags, country_tags_all, countries, opt)
                } else {
                    get_province_color_for_country(p, country_tags_all, country_tags, countries, opt)
                }
            } else if p.is_used == false {
                col_gray
            } else if p.is_lake || p.is_sea {
                col_sea
            } else {
                col_gray
            }
        },
        None => col_gray,
    }
}

/// The colour of the last run of the province with the id `prev_id`, if it
/// is painted (see `last_run_color`).
fn last_run_color_of(all_provinces: &Vec<Province>, prev_id: i32, country_tags: &Vec<String>) -> (c:
    Option<Color>)
    ensures
        forall|cta: Seq<Seq<char>>, ns: Seq<NationView>, o: ImageOptions, w: int, h: int, cw: bool|
            c == #[trigger] last_run_color(
                find_province(provinces_view(all_provinces@), prev_id as int),
                MapContext {
                    provinces: provinces_view(all_provinces@),
                    country_tags: strings_view(country_tags@),
                    country_tags_all: cta,
                    countries: ns,
                    opt: o,
                    width: w,
                    height: h,
                    crosswise: cw,
                },
            ),
{
    let col_sea = Color { r: 25, g: 100, b: 160 };
    let col_gray = Color { r: 125, g: 125, b: 125 };
    match find_province_index(all_provinces, prev_id) {
        Some(j) => {
            let p = &all_provinces[j];
            match &p.owner {
                Some(own) => {
                    if contains_tag(country_tags, &own.tag) {
                        Some(Color { r: own.color_r, g: own.color_g, b: own.color_b })
                    } else {
                        None
                    }
                },
                None => if p.is_used == false {
                    Some(col_gray)
                } else if p.is_lake || p.is_sea {
                    Some(col_sea)
                } else {
                    Some(col_gray)
                },
            }
        },
        None => None,
    }
}

/// A painting that stays within the image up to the end stays within it up
/// to each record.
proof fn lemma_paint_prefix(ctx: MapContext, recs: Seq<(u32, u32, i32)>, k: int)
    requires
        0 <= k < recs.len(),
        paint_records(ctx, recs) is Some,
    ensures
        paint_records(ctx, recs.take(k)) is Some,
        run_fits(paint_records(ctx, recs.take(k))->0, recs[k], ctx),
        paint_records(ctx, recs.take(k + 1)) == Some(
            paint_step(paint_records(ctx, recs.take(k))->0, recs[k], ctx),
        ),
    decreases recs.len() - k,
{
    assert(recs.take(k + 1).drop_last() =~= recs.take(k));
    if k + 1 == recs.len() {
        assert(recs.take(k + 1) =~= recs);
    } else {
        lemma_paint_prefix(ctx, recs, k + 1);
        assert(recs.take(k + 2).drop_last() =~= recs.take(k + 1));
    }
}

/// Paints a map of `width` by `height` pixels from the coordinate records,
/// where the painting stays within the image.
fn paint_records_into_map(
    all_provinces: &Vec<Province>,
    country_tags: &Vec<String>,
    countries: &Vec<Nation>,
    opt: &ImageOptions,
    records: &Vec<(u32, u32, i32)>,
    width: u32,
    height: u32,
    crosswise: bool,
) -> (img: RgbImage)
    requires
        opt.wf(),
        paint_records(
            map_context(all_provinces@, country_tags@, countries@, *opt, width as int, height as int, crosswise),
            records@,
        ) is Some,
        finish_fits(
            paint_records(
                map_context(all_provinces@, country_tags@, countries@, *opt, width as int, height as int, crosswise),
                records@,
            )->0,
            map_context(all_provinces@, country_tags@, countries@, *opt, width as int, height as int, crosswise),
        ),
    ensures
        img.wf(),
        img.width == width,
        img.height == height,
        img.pixels() == paint_finish(
            paint_records(
                map_context(all_provinces@, country_tags@, countries@, *opt, width as int, height as int, crosswise),
                records@,
            )->0,
            map_context(all_provinces@, country_tags@, countries@, *opt, width as int, height as int, crosswise),
        ),
{
    let ghost ctx = map_context(
        all_provinces@,
        country_tags@,
        countries@,
        *opt,
        width as int,
        height as int,
        crosswise,
    );
    let country_tags_all = shown_country_tags(country_tags, countries, opt);
    let img_x: u32 = width;
    let img_y: u32 = height;
    let mut imgbuf = RgbImage::new(img_x, img_y);
    let mut prev_id: i32 = -1;
    let mut prev_x: u32 = 0;
    let mut prev_y: u32 = 0;
    let mut k: usize = 0;
    assert(records@.take(0) =~= Seq::<(u32, u32, i32)>::empty());
    while k < records.len()
        invariant
            k <= records@.len(),
            opt.wf(),
            ctx == map_context(all_provinces@, country_tags@, countries@, *opt, width as int, height as int, crosswise),
            strings_view(country_tags_all@) == ctx.country_tags_all,
            paint_records(ctx, records@) is Some,
            imgbuf.wf(),
            imgbuf.width == img_x,
            imgbuf.height == img_y,
            img_x == width,
            img_y == height,
            paint_records(ctx, records@.take(k as int)) == Some(
                PaintState { img: imgbuf.pixels(), prev_id, prev_x, prev_y },
            ),
        decreases records@.len() - k,
    {
        proof {
            lemma_paint_prefix(ctx, records@, k as int);
        }
        let (x, y, id) = records[k];
        if prev_id == -1 {
            prev_id = id;
            prev_x = x;
            prev_y = y;
            k += 1;
            continue;
        }
        let mut x_adjusted = x;
        if x == 0 {
            x_adjusted = img_x - 1;
        }
        let px_col = run_color_of(
            all_provinces,
            prev_id,
            country_tags,
            &country_tags_all,
            countries,
            opt,
            crosswise,
        );
        proof {
            assert(px_col == run_color(find_province(ctx.provinces, prev_id as int), ctx));
        }
        paint_run(&mut imgbuf, prev_y, prev_x, x_adjusted, px_col);
        prev_id = id;
        prev_x = x;
        prev_y = y;
        k += 1;
    }
    assert(records@.take(k as int) =~= records@);
    match last_run_color_of(all_provinces, prev_id, country_tags) {
        Some(c) => {
            proof {
                assert(Some(c) == last_run_color(find_province(ctx.provinces, prev_id as int), ctx));
                assert(finish_fits(paint_records(ctx, records@)->0, ctx));
            }
            if prev_x < img_x {
                paint_run(&mut imgbuf, img_y - 1, prev_x, img_x, c);
            }
        },
        None => {},
    }
    imgbuf
}

/// The painting stays within the image exactly where every run fits, and
/// its previous record is the last record.
pub proof fn lemma_paint_records_fit(ctx: MapContext, recs: Seq<(u32, u32, i32)>)
    ensures
        paint_records(ctx, recs) is Some <==> runs_fit(recs, ctx.width, ctx.height),
        paint_records(ctx, recs) matches Some(st) ==> if recs.len() == 0 {
            st.prev_id == -1 && st.prev_x == 0 && st.prev_y == 0
        } else {
            st.prev_id == recs.last().2 && st.prev_x == recs.last().0 && st.prev_y == recs.last().1
        },
    decreases recs.len(),
{
    let w = ctx.width;
    let h = ctx.height;
    if recs.len() > 0 {
        let dl = recs.drop_last();
        lemma_paint_records_fit(ctx, dl);
        assert(runs_fit(recs, w, h) <==> (runs_fit(dl, w, h) && (recs.len() >= 2 ==> pair_fits(
            recs[recs.len() - 2],
            recs[recs.len() - 1],
            w,
            h,
        )))) by {
            if runs_fit(recs, w, h) {
                assert forall|k: int| 1 <= k < dl.len() implies pair_fits(#[trigger] dl[k - 1], dl[k], w, h) by {
                    assert(dl[k - 1] == recs[k - 1]);
                    assert(dl[k] == recs[k]);
                    assert(pair_fits(recs[k - 1], recs[k], w, h));
                }
                if recs.len() >= 2 {
                    let k = recs.len() - 1;
                    assert(pair_fits(recs[k - 1], recs[k], w, h));
                }
            }
            if runs_fit(dl, w, h) && (recs.len() >= 2 ==> pair_fits(recs[recs.len() - 2], recs[recs.len() - 1], w, h)) {
                assert forall|k: int| 1 <= k < recs.len() implies pair_fits(#[trigger] recs[k - 1], recs[k], w, h) by {
                    if k < recs.len() - 1 {
                        assert(dl[k - 1] == recs[k - 1]);
                        assert(dl[k] == recs[k]);
                        assert(pair_fits(dl[k - 1], dl[k], w, h));
                    }
                }
            }
        }
        if dl.len() > 0 {
            assert(dl.last() == recs[recs.len() - 2]);
        }
    }
}

/// Paints the web map from the coordinate records `(x, y, id)`: each record
/// closes the run of the previous record's province (see `paint_step`), and
/// the last record's run goes to the right edge of the bottom row (see
/// `paint_finish`). The image is 5632 by 2048 pixels, black where nothing
/// is painted, and `owner_color` gets the lists of tags crosswise. Every
/// run must lie within the image.
pub fn paint_map(
    all_provinces: &Vec<Province>,
    country_tags: &Vec<String>,
    countries: &Vec<Nation>,
    opt: &ImageOptions,
    records: &Vec<(u32, u32, i32)>,
) -> (img: RgbImage)
    requires
        opt.wf(),
        runs_fit(records@, map_width(), map_height()),
    ensures
        img.wf(),
        img.width == map_width(),
        img.height == map_height(),
        img.pixels() == rendered_map(context_of(all_provinces@, country_tags@, countries@, *opt), records@),
{
    proof {
        lemma_paint_records_fit(context_of(all_provinces@, country_tags@, countries@, *opt), records@);
    }
    paint_records_into_map(all_provinces, country_tags, countries, opt, records, 5632, 2048, true)
}

/// The last run of the records can be painted on an image of `width` by
/// `height` pixels (see `finish_fits`).
pub open spec fn last_run_fits(recs: Seq<(u32, u32, i32)>, pv: Seq<ProvinceView>, width: int, height: int) -> bool {
    let (px, id) = if recs.len() == 0 {
        (0int, -1int)
    } else {
        (recs.last().0 as int, recs.last().2 as int)
    };
    !(px < width && find_province(pv, id) is Some && height == 0)
}

/// Paints a map of `width` by `height` pixels from the coordinate records
/// as `paint_map` does, but with `owner_color` getting the tags shown and
/// the nations asked for in their own places. Every run must lie within
/// the image, and the last run must be paintable.
pub fn paint_map_sized(
    all_provinces: &Vec<Province>,
    country_tags: &Vec<String>,
    countries: &Vec<Nation>,
    opt: &ImageOptions,
    records: &Vec<(u32, u32, i32)>,
    width: u32,
    height: u32,
) -> (img: RgbImage)
    requires
        opt.wf(),
        runs_fit(records@, width as int, height as int),
        last_run_fits(records@, provinces_view(all_provinces@), width as int, height as int),
    ensures
        img.wf(),
        img.width == width,
        img.height == height,
        img.pixels() == rendered_map(
            map_context(all_provinces@, country_tags@, countries@, *opt, width as int, height as int, false),
            records@,
        ),
{
    proof {
        lemma_paint_records_fit(
            map_context(all_provinces@, country_tags@, countries@, *opt, width as int, height as int, false),
            records@,
        );
    }
    paint_records_into_map(all_provinces, country_tags, countries, opt, records, width, height, false)
}

/// The map painted from the records `recs` (see `paint_map`).
pub open spec fn rendered_map(ctx: MapContext, recs: Seq<(u32, u32, i32)>) -> Seq<Seq<Color>> {
    paint_finish(paint_records(ctx, recs)->0, ctx)
}

/// Whether every run of the records lies within an image of `width` by
/// `height` pixels.
pub fn records_fit(records: &Vec<(u32, u32, i32)>, width: u32, height: u32) -> (r: bool)
    ensures
        r == runs_fit(records@, width as int, height as int),
{
    let mut k: usize = 1;
    while k < records.len()
        invariant
            1 <= k,
            forall|j: int|
                1 <= j < k && j < records@.len() ==> pair_fits(
                    #[trigger] records@[j - 1],
                    records@[j],
                    width as int,
                    height as int,
                ),
        decreases records@.len() - k,
    {
        let (px, py, pid) = records[k - 1];
        let (x, _y, _id) = records[k];
        if pid != -1 {
            if x == 0 && width == 0 {
                assert(!pair_fits(records@[k - 1], records@[k as int], width as int, height as int));
                return false;
            }
            let end: u32 = if x == 0 { width - 1 } else { x };
            if !(px >= end || (py < height && end <= width)) {
                assert(!pair_fits(records@[k - 1], records@[k as int], width as int, height as int));
                return false;
            }
        }
        k += 1;
    }
    true
}

/// Whether the last run of the records can be painted on an image of
/// `width` by `height` pixels (see `last_run_fits`).
pub fn last_run_fit(all_provinces: &Vec<Province>, records: &Vec<(u32, u32, i32)>, width: u32, height: u32) -> (r: bool)
    ensures
        r == last_run_fits(records@, provinces_view(all_provinces@), width as int, height as int),
{
    let (px, id): (u32, i32) = if records.len() == 0 {
        (0, -1)
    } else {
        let last = records[records.len() - 1];
        (last.0, last.2)
    };
    !(px < width && find_province_index(all_provinces, id).is_some() && height == 0)
}

/// The clamped rectangle that `crop_imm(x, y, w, h)` takes of an image of
/// `iw` by `ih` pixels: the corner moved into the image, the size cut to
/// what lies inside it.
pub open spec fn crop_rect(iw: int, ih: int, x: int, y: int, w: int, h: int) -> (int, int, int, int) {
    let x1 = if x < iw { x } else { iw };
    let y1 = if y < ih { y } else { ih };
    let h1 = if h < ih - y1 { h } else { ih - y1 };
    let w1 = if w < iw - x1 { w } else { iw - x1 };
    (x1, y1, w1, h1)
}

/// The pixels of the rectangle of `w` by `h` pixels at `(x, y)`.
pub open spec fn sub_image(img: Seq<Seq<Color>>, x: int, y: int, w: int, h: int) -> Seq<Seq<Color>> {
    Seq::new(h as nat, |j: int| Seq::new(w as nat, |i: int| img[y + j][x + i]))
}

/// A copy of the part of the image at `(x, y)` of `w` by `h` pixels, clamped
/// to the image as `image::imageops::crop_imm` clamps it.
pub fn crop_imm(img: &RgbImage, x: u32, y: u32, w: u32, h: u32) -> (r: RgbImage)
    requires
        img.wf(),
    ensures
        r.wf(),
        (r.width as int, r.height as int) == ({
            let c = crop_rect(img.width as int, img.height as int, x as int, y as int, w as int, h as int);
            (c.2, c.3)
        }),
        r.pixels() == ({
            let c = crop_rect(img.width as int, img.height as int, x as int, y as int, w as int, h as int);
            sub_image(img.pixels(), c.0, c.1, c.2, c.3)
        }),
{
    let x1 = if x < img.width { x } else { img.width };
    let y1 = if y < img.height { y } else { img.height };
    let h1 = if h < img.height - y1 { h } else { img.height - y1 };
    let w1 = if w < img.width - x1 { w } else { img.width - x1 };
    let ghost src = img.pixels();
    let ghost want = sub_image(src, x1 as int, y1 as int, w1 as int, h1 as int);
    let mut rows: Vec<Vec<Color>> = Vec::new();
    let mut j: u32 = 0;
    while j < h1
        invariant
            img.wf(),
            src == img.pixels(),
            x1 as int + w1 as int <= img.width,
            y1 as int + h1 as int <= img.height,
            j <= h1,
            want == sub_image(src, x1 as int, y1 as int, w1 as int, h1 as int),
            rows@.len() == j,
            forall|k: int| 0 <= k < j ==> #[trigger] rows@[k]@ == want[k],
        decreases h1 - j,
    {
        let mut row: Vec<Color> = Vec::new();
        let mut i: u32 = 0;
        while i < w1
            invariant
                img.wf(),
                src == img.pixels(),
                x1 as int + w1 as int <= img.width,
                y1 as int + h1 as int <= img.height,
                j < h1,
                i <= w1,
                want == sub_image(src, x1 as int, y1 as int, w1 as int, h1 as int),
                row@ =~= want[j as int].take(i as int),
            decreases w1 - i,
        {
            assert(src[(y1 + j) as int] == img.rows@[(y1 + j) as int]@);
            let c = img.rows[(y1 + j) as usize][(x1 + i) as usize];
            row.push(c);
            i += 1;
            assert(row@ =~= want[j as int].take(i as int));
        }
        assert(want[j as int].take(w1 as int) =~= want[j as int]);
        rows.push(row);
        j += 1;
    }
    let r = RgbImage { width: w1, height: h1, rows };
    assert(r.pixels() =~= want);
    r
}

/// The bytes of one row: red, green and blue of each pixel, in order.
pub open spec fn row_bytes(row: Seq<Color>) -> Seq<u8>
    decreases row.len(),
{
    if row.len() == 0 {
        seq![]
    } else {
        row_bytes(row.drop_last()) + seq![row.last().r, row.last().g, row.last().b]
    }
}

/// The bytes of an image, row after row.
pub open spec fn pixel_bytes(rows: Seq<Seq<Color>>) -> Seq<u8>
    decreases rows.len(),
{
    if rows.len() == 0 {
        seq![]
    } else {
        pixel_bytes(rows.drop_last()) + row_bytes(rows.last())
    }
}

proof fn lemma_row_bytes_len(row: Seq<Color>)
    ensures
        row_bytes(row).len() == 3 * row.len(),
    decreases row.len(),
{
    if row.len() > 0 {
        lemma_row_bytes_len(row.drop_last());
    }
}

proof fn lemma_pixel_bytes_len(rows: Seq<Seq<Color>>, w: nat)
    requires
        forall|y: int| 0 <= y < rows.len() ==> #[trigger] rows[y].len() == w,
    ensures
        pixel_bytes(rows).len() == 3 * w * rows.len(),
    decreases rows.len(),
{
    if rows.len() > 0 {
        lemma_pixel_bytes_len(rows.drop_last(), w);
        lemma_row_bytes_len(rows.last());
        assert(3 * w * (rows.len() - 1) + 3 * w == 3 * w * rows.len()) by (nonlinear_arith);
    }
}

/// The pixels of the image as bytes, row after row (see `pixel_bytes`).
pub fn image_bytes(img: &RgbImage) -> (data: Vec<u8>)
    requires
        img.wf(),
    ensures
        data@ == pixel_bytes(img.pixels()),
        data@.len() == 3 * img.width * img.height,
{
    let ghost px = img.pixels();
    let mut data: Vec<u8> = Vec::new();
    let mut j: usize = 0;
    assert(px.take(0) =~= Seq::<Seq<Color>>::empty());
    while j < img.rows.len()
        invariant
            img.wf(),
            px == img.pixels(),
            j <= img.rows@.len(),
            data@ == pixel_bytes(px.take(j as int)),
        decreases img.rows@.len() - j,
    {
        let row = &img.rows[j];
        let ghost before = data@;
        let mut i: usize = 0;
        assert(row@.take(0) =~= Seq::<Color>::empty());
        assert(before + row_bytes(row@.take(0)) =~= before);
        while i < row.len()
            invariant
                i <= row@.len(),
                data@ == before + row_bytes(row@.take(i as int)),
            decreases row@.len() - i,
        {
            let c = row[i];
            data.push(c.r);
            data.push(c.g);
            data.push(c.b);
            assert(row@.take(i + 1).drop_last() =~= row@.take(i as int));
            i += 1;
            assert(data@ =~= before + row_bytes(row@.take(i as int)));
        }
        assert(row@.take(i as int) =~= row@);
        assert(px.take(j + 1).drop_last() =~= px.take(j as int));
        assert(px[j as int] == row@);
        j += 1;
    }
    assert(px.take(j as int) =~= px);
    proof {
        lemma_pixel_bytes_len(px, img.width as nat);
    }
    data
}

/// What `image::DynamicImage::write_to` writes, as PNG, for an RGB image of
/// `width` by `height` pixels with the bytes `data`.
pub uninterp spec fn png_encoding(width: u32, height: u32, data: Seq<u8>) -> Seq<u8>;

/// Encodes an RGB image as PNG with the `image` crate
/// (`ImageBuffer::from_raw`, `DynamicImage::ImageRgb8`, `write_to` a
/// `Cursor` with `ImageFormat::Png`), keeping what was written whether the
/// encoder reports an error or not. The contract claims that the bytes are
/// a function of the width, the height and the pixel bytes alone (named
/// `png_encoding`); what they are is left unsaid. `from_raw` accepts the
/// pixels because there are exactly three bytes per pixel.
#[verifier::external_body]
fn encode_png(width: u32, height: u32, data: Vec<u8>) -> (png: Vec<u8>)
    requires
        data@.len() == 3 * width * height,
    ensures
        png@ == png_encoding(width, height, data@),
{
    let buf: image::RgbImage = image::ImageBuffer::from_raw(width, height, data).unwrap();
    let mut buffer = std::io::Cursor::new(Vec::new());
    let _ = image::DynamicImage::ImageRgb8(buf).write_to(&mut buffer, image::ImageFormat::Png);
    buffer.into_inner()
}


/// One record of the coordinate table: `x`, `y` (as `u32`) and the
/// province id (as `i32`). `None` where the record lacks a field or a field
/// does not read as its type.
pub open spec fn coord_record(r: Seq<Seq<char>>) -> Option<(u32, u32, i32)> {
    if r.len() < 3 {
        None
    } else {
        match (
            parse_unsigned_spec(r[0], u32::MAX as int),
            parse_unsigned_spec(r[1], u32::MAX as int),
            parse_i32_spec(r[2]),
        ) {
            (Some(x), Some(y), Some(id)) => Some((x as u32, y as u32, id)),
            _ => None,
        }
    }
}

/// The records of the coordinate table, in order; `None` where one is not
/// readable.
pub open spec fn coords_of_rows(rows: Seq<Seq<Seq<char>>>) -> Option<Seq<(u32, u32, i32)>>
    decreases rows.len(),
{
    if rows.len() == 0 {
        Some(seq![])
    } else {
        match (coords_of_rows(rows.drop_last()), coord_record(rows.last())) {
            (Some(cs), Some(c)) => Some(cs.push(c)),
            _ => None,
        }
    }
}

proof fn lemma_coords_none_stays(rows: Seq<Seq<Seq<char>>>, k: int)
    requires
        0 <= k <= rows.len(),
        coords_of_rows(rows.take(k)) is None,
    ensures
        coords_of_rows(rows) is None,
    decreases rows.len() - k,
{
    if k < rows.len() {
        assert(rows.take(k + 1).drop_last() =~= rows.take(k));
        lemma_coords_none_stays(rows, k + 1);
    } else {
        assert(rows.take(k) =~= rows);
    }
}

/// Reads a field as `str::parse::<u32>` does.
fn field_u32(field: &String) -> (r: Option<u32>)
    ensures
        r matches Some(v) ==> parse_unsigned_spec(field@, u32::MAX as int) == Some(v as int),
        r is None ==> parse_unsigned_spec(field@, u32::MAX as int) is None,
{
    let cs = chars_of(field.as_str());
    assert(cs@.subrange(0, cs@.len() as int) =~= cs@);
    decimal_unsigned(&cs, 0, cs.len(), u32::MAX)
}

/// Reads a field as `str::parse::<i32>` does.
fn field_i32(field: &String) -> (r: Option<i32>)
    ensures
        r == parse_i32_spec(field@),
{
    let cs = chars_of(field.as_str());
    assert(cs@.subrange(0, cs@.len() as int) =~= cs@);
    decimal_i32(&cs, 0, cs.len())
}

/// Reads the records of the coordinate table (see `coord_record`), or
/// `None` where one is not readable.
pub fn coords_from_rows(rows: &Vec<Vec<String>>) -> (r: Option<Vec<(u32, u32, i32)>>)
    ensures
        match coords_of_rows(rows_view(rows@)) {
            Some(cs) => r matches Some(v) && v@ == cs,
            None => r is None,
        },
{
    proof {
        lemma_rows_view(rows@);
    }
    let ghost rv = rows_view(rows@);
    let mut out: Vec<(u32, u32, i32)> = Vec::new();
    let mut i: usize = 0;
    assert(rv.take(0) =~= Seq::<Seq<Seq<char>>>::empty());
    while i < rows.len()
        invariant
            i <= rows@.len(),
            rv == rows_view(rows@),
            rv.len() == rows@.len(),
            forall|k: int| 0 <= k < rows@.len() ==> #[trigger] rv[k] == strings_view(rows@[k]@),
            coords_of_rows(rv.take(i as int)) == Some(out@),
        decreases rows@.len() - i,
    {
        assert(rv.take(i + 1).drop_last() =~= rv.take(i as int));
        let record = &rows[i];
        assert(rv[i as int] == strings_view(record@));
        let mut c: Option<(u32, u32, i32)> = None;
        if record.len() >= 3 {
            assert(strings_view(record@)[0] == record@[0]@);
            assert(strings_view(record@)[1] == record@[1]@);
            assert(strings_view(record@)[2] == record@[2]@);
            let x = field_u32(&record[0]);
            let y = field_u32(&record[1]);
            let id = field_i32(&record[2]);
            match (x, y, id) {
                (Some(x), Some(y), Some(id)) => {
                    c = Some((x, y, id));
                },
                _ => {},
            }
        }
        match c {
            Some(t) => {
                out.push(t);
            },
            None => {
                proof {
                    lemma_coords_none_stays(rv, i + 1);
                    assert(rv.take(rows@.len() as int) =~= rv);
                }
                return None;
            },
        }
        i += 1;
    }
    assert(rv.take(i as int) =~= rv);
    Some(out)
}

/// The rectangle `continent` is the whole map.
pub open spec fn is_whole_map(c: ContinentCoord) -> bool {
    c.x0() == 0 && c.y0() == 0 && c.x1() == map_width() && c.y1() == map_height()
}

/// The part of the map image that is shown: all of it, or the continent cut
/// out of it (see `crop_imm`), with its width and height.
pub open spec fn shown_map(img: Seq<Seq<Color>>, c: ContinentCoord) -> (Seq<Seq<Color>>, int, int) {
    if is_whole_map(c) {
        (img, map_width(), map_height())
    } else {
        let r = crop_rect(
            map_width(),
            map_height(),
            c.x0() as int,
            c.y0() as int,
            c.x1() - c.x0(),
            c.y1() - c.y0(),
        );
        (sub_image(img, r.0, r.1, r.2, r.3), r.2, r.3)
    }
}

/// The PNG of the shown part of the map image.
pub open spec fn map_png(img: Seq<Seq<Color>>, c: ContinentCoord) -> Seq<u8> {
    let (px, w, h) = shown_map(img, c);
    png_encoding(w as u32, h as u32, pixel_bytes(px))
}

/// The records of the coordinate table `map_csv` (fields separated by `,`)
/// before the first error all read (see `coord_record`), and every run they
/// close lies within an image of `width` by `height` pixels.
pub open spec fn table_paintable(map_csv: Seq<u8>, width: int, height: int) -> bool {
    coords_of_rows(csv_read(map_csv, 44u8).0) matches Some(recs) && runs_fit(recs, width, height)
}

/// The records of the coordinate table `map_csv` before the first error.
pub open spec fn table_records(map_csv: Seq<u8>) -> Seq<(u32, u32, i32)> {
    coords_of_rows(csv_read(map_csv, 44u8).0)->0
}

/// Draws the web map as a PNG from the coordinate table `map_csv` (fields
/// separated by `,`, a header row first, each record `x`, `y`, province
/// id): the map is painted from the records (see `paint_map`) and cut to
/// the continent of the options. The records before the first error must
/// read and fit the map (see `table_paintable`).
///
/// The error that stopped the reading of the table, if any; else the PNG.
pub fn make_image(
    all_provinces: &Vec<Province>,
    country_tags: Vec<String>,
    countries: &Vec<Nation>,
    opt: ImageOptions,
    map_csv: &[u8],
) -> (res: Result<Vec<u8>, ReadError>)
    requires
        opt.wf(),
        opt.continent.x0() <= opt.continent.x1(),
        opt.continent.y0() <= opt.continent.y1(),
        table_paintable(map_csv@, map_width(), map_height()),
    ensures
        res is Err <==> csv_read(map_csv@, 44u8).1,
        res matches Ok(png) ==> png@ == map_png(
            rendered_map(context_of(all_provinces@, country_tags@, countries@, opt), table_records(map_csv@)),
            opt.continent,
        ),
{
    let (rows, err) = read_csv(map_csv, 44u8);
    let records = match coords_from_rows(&rows) {
        Some(r) => r,
        None => {
            // not reached: the records read
            return Ok(Vec::new());
        },
    };
    match err {
        Some(e) => {
            return Err(ReadError::Csv(e));
        },
        None => {},
    }
    let imgbuf = paint_map(all_provinces, &country_tags, countries, &opt, &records);
    let shown = if !(opt.continent == ContinentCoord::all()) {
        let l = opt.continent.right() - opt.continent.left();
        let h = opt.continent.bottom() - opt.continent.top();
        crop_imm(&imgbuf, opt.continent.left(), opt.continent.top(), l, h)
    } else {
        imgbuf
    };
    let data = image_bytes(&shown);
    Ok(encode_png(shown.width, shown.height, data))
}

/// Draws the web map as `make_image` does, or returns `None` where a record
/// of the table before the first error is not readable (see `coord_record`)
/// or a run falls outside the map.
pub fn make_image_checked(
    all_provinces: &Vec<Province>,
    country_tags: Vec<String>,
    countries: &Vec<Nation>,
    opt: ImageOptions,
    map_csv: &[u8],
) -> (res: Option<Result<Vec<u8>, ReadError>>)
    requires
        opt.wf(),
        opt.continent.x0() <= opt.continent.x1(),
        opt.continent.y0() <= opt.continent.y1(),
    ensures
        match coords_of_rows(csv_read(map_csv@, 44u8).0) {
            None => res is None,
            Some(recs) => if !runs_fit(recs, map_width(), map_height()) {
                res is None
            } else if csv_read(map_csv@, 44u8).1 {
                res matches Some(Err(_))
            } else {
                res matches Some(Ok(png)) && png@ == map_png(
                    rendered_map(context_of(all_provinces@, country_tags@, countries@, opt), recs),
                    opt.continent,
                )
            },
        },
{
    let (rows, _err) = read_csv(map_csv, 44u8);
    let records = match coords_from_rows(&rows) {
        Some(r) => r,
        None => return None,
    };
    if !records_fit(&records, 5632, 2048) {
        return None;
    }
    Some(make_image(all_provinces, country_tags, countries, opt, map_csv))
}

/// Draws the map of `width` by `height` pixels (the size of the province
/// map) from the coordinate table `map_csv` (fields separated by `,`, a
/// header row first, each record `x`, `y`, province id), with `owner_color`
/// getting the tags shown and the nations asked for in their own places
/// (see `paint_map_sized`). The records before the first error must read
/// and fit the image (see `table_paintable`), and, where the table has no
/// error, its last run must be paintable (see `last_run_fits`).
///
/// The error that stopped the reading of the table, if any; else the image.
pub fn draw_map(
    all_provinces: &Vec<Province>,
    country_tags: &Vec<String>,
    countries: &Vec<Nation>,
    opt: &ImageOptions,
    map_csv: &[u8],
    width: u32,
    height: u32,
) -> (res: Result<RgbImage, ReadError>)
    requires
        opt.wf(),
        table_paintable(map_csv@, width as int, height as int),
        !csv_read(map_csv@, 44u8).1 ==> last_run_fits(
            table_records(map_csv@),
            provinces_view(all_provinces@),
            width as int,
            height as int,
        ),
    ensures
        res is Err <==> csv_read(map_csv@, 44u8).1,
        res matches Ok(img) ==> img.wf() && img.width == width && img.height == height && img.pixels()
            == rendered_map(
            map_context(all_provinces@, country_tags@, countries@, *opt, width as int, height as int, false),
            table_records(map_csv@),
        ),
{
    let (rows, err) = read_csv(map_csv, 44u8);
    let records = match coords_from_rows(&rows) {
        Some(r) => r,
        None => {
            // not reached: the records read
            return Ok(RgbImage::new(width, height));
        },
    };
    match err {
        Some(e) => {
            return Err(ReadError::Csv(e));
        },
        None => {},
    }
    Ok(paint_map_sized(all_provinces, country_tags, countries, opt, &records, width, height))
}

/// Draws the map as `draw_map` does, or returns `None` where a record of the
/// table before the first error is not readable (see `coord_record`), a run
/// falls outside the image, or (without an error in the table) the last run
/// cannot be painted.
pub fn draw_map_checked(
    all_provinces: &Vec<Province>,
    country_tags: &Vec<String>,
    countries: &Vec<Nation>,
    opt: &ImageOptions,
    map_csv: &[u8],
    width: u32,
    height: u32,
) -> (res: Option<Result<RgbImage, ReadError>>)
    requires
        opt.wf(),
    ensures
        match coords_of_rows(csv_read(map_csv@, 44u8).0) {
            None => res is None,
            Some(recs) => if !runs_fit(recs, width as int, height as int) {
                res is None
            } else if csv_read(map_csv@, 44u8).1 {
                res matches Some(Err(_))
            } else if !last_run_fits(recs, provinces_view(all_provinces@), width as int, height as int) {
                res is None
            } else {
                res matches Some(Ok(img)) && img.wf() && img.width == width && img.height == height
                    && img.pixels() == rendered_map(
                    map_context(all_provinces@, country_tags@, countries@, *opt, width as int, height as int, false),
                    recs,
                )
            },
        },
{
    let (rows, err) = read_csv(map_csv, 44u8);
    let records = match coords_from_rows(&rows) {
        Some(r) => r,
        None => return None,
    };
    if !records_fit(&records, width, height) {
        return None;
    }
    if err.is_none() && !last_run_fit(all_provinces, &records, width, height) {
        return None;
    }
    Some(draw_map(all_provinces, country_tags, countries, opt, map_csv, width, height))
}


proof fn lemma_add_missing(acc: Seq<Seq<char>>, items: Seq<Seq<char>>)
    ensures
        forall|t: Seq<char>| acc.contains(t) ==> add_missing(acc, items).contains(t),
        forall|t: Seq<char>| items.contains(t) ==> add_missing(acc, items).contains(t),
        forall|t: Seq<char>| add_missing(acc, items).contains(t) ==> acc.contains(t) || items.contains(t),
        acc.no_duplicates() ==> add_missing(acc, items).no_duplicates(),
    decreases items.len(),
{
    if items.len() > 0 {
        let dl = items.drop_last();
        let x = items.last();
        lemma_add_missing(acc, dl);
        let a = add_missing(acc, dl);
        assert forall|t: Seq<char>| items.contains(t) implies add_missing(acc, items).contains(t) by {
            let k = choose|k: int| 0 <= k < items.len() && items[k] == t;
            if k < items.len() - 1 {
                assert(dl[k] == t);
                assert(dl.contains(t));
                assert(a.contains(t));
                if !a.contains(x) {
                    let j = choose|j: int| 0 <= j < a.len() && a[j] == t;
                    assert(a.push(x)[j] == t);
                }
            } else {
                assert(t == x);
                if !a.contains(x) {
                    assert(a.push(x)[a.len() as int] == x);
                }
            }
        }
        assert forall|t: Seq<char>| acc.contains(t) implies add_missing(acc, items).contains(t) by {
            if !a.contains(x) {
                let k = choose|k: int| 0 <= k < a.len() && a[k] == t;
                assert(a.push(x)[k] == t);
            }
        }
        assert forall|t: Seq<char>| add_missing(acc, items).contains(t) implies acc.contains(t) || items.contains(t) by {
            if !a.contains(x) {
                let k = choose|k: int| 0 <= k < a.push(x).len() && a.push(x)[k] == t;
                if k < a.len() {
                    assert(a[k] == t);
                    if dl.contains(t) {
                        let j = choose|j: int| 0 <= j < dl.len() && dl[j] == t;
                        assert(items[j] == t);
                    }
                } else {
                    assert(items[items.len() - 1] == t);
                }
            } else {
                if dl.contains(t) {
                    let j = choose|j: int| 0 <= j < dl.len() && dl[j] == t;
                    assert(items[j] == t);
                }
            }
        }
    }
}

proof fn lemma_partner_tags_unique(ns: Seq<NationView>, country_tags: Seq<Seq<char>>, opt: ImageOptions)
    ensures
        partner_tags(ns, country_tags, opt).no_duplicates(),
    decreases ns.len(),
{
    if ns.len() > 0 {
        lemma_partner_tags_unique(ns.drop_last(), country_tags, opt);
        let acc = partner_tags(ns.drop_last(), country_tags, opt);
        let n = ns.last();
        lemma_add_missing(acc, n.allies);
        let a1 = if opt.show_allies { add_missing(acc, n.allies) } else { acc };
        lemma_add_missing(a1, n.subjects);
    }
}

/// Every nation asked for is shown on the map, and no tag is shown twice.
pub proof fn lemma_shown_tags(country_tags: Seq<Seq<char>>, ns: Seq<NationView>, opt: ImageOptions)
    ensures
        forall|t: Seq<char>| country_tags.contains(t) ==> shown_tags(country_tags, ns, opt).contains(t),
        shown_tags(country_tags, ns, opt).no_duplicates(),
{
    lemma_partner_tags_unique(ns, country_tags, opt);
    lemma_add_missing(partner_tags(ns, country_tags, opt), country_tags);
}

/// `t` is an ally (where allies are shown) or a subject (where subjects are
/// shown) of the nation `n`, which is asked for.
pub open spec fn shown_partner(n: NationView, country_tags: Seq<Seq<char>>, opt: ImageOptions, t: Seq<char>) -> bool {
    &&& country_tags.contains(n.tag)
    &&& (opt.show_allies && n.allies.contains(t)) || (opt.show_subjects && n.subjects.contains(t))
}

proof fn lemma_partner_tags_come_from(ns: Seq<NationView>, country_tags: Seq<Seq<char>>, opt: ImageOptions)
    ensures
        forall|t: Seq<char>|
            partner_tags(ns, country_tags, opt).contains(t) ==> exists|k: int|
                0 <= k < ns.len() && #[trigger] shown_partner(ns[k], country_tags, opt, t),
    decreases ns.len(),
{
    if ns.len() > 0 {
        let dl = ns.drop_last();
        let n = ns.last();
        let acc = partner_tags(dl, country_tags, opt);
        lemma_partner_tags_come_from(dl, country_tags, opt);
        let a1 = if opt.show_allies { add_missing(acc, n.allies) } else { acc };
        lemma_add_missing(acc, n.allies);
        lemma_add_missing(a1, n.subjects);
        assert forall|t: Seq<char>| partner_tags(ns, country_tags, opt).contains(t) implies exists|k: int|
            0 <= k < ns.len() && #[trigger] shown_partner(ns[k], country_tags, opt, t) by {
            if acc.contains(t) {
                let k = choose|k: int| 0 <= k < dl.len() && #[trigger] shown_partner(dl[k], country_tags, opt, t);
                assert(ns[k] == dl[k]);
            } else {
                assert(ns[ns.len() - 1] == n);
                assert(shown_partner(ns[ns.len() - 1], country_tags, opt, t));
            }
        }
    }
}

/// A tag that the map shows is a tag asked for, or an ally (where allies are
/// shown) or a subject (where subjects are shown) of a nation asked for.
pub proof fn lemma_shown_tags_come_from(country_tags: Seq<Seq<char>>, ns: Seq<NationView>, opt: ImageOptions)
    ensures
        forall|t: Seq<char>|
            shown_tags(country_tags, ns, opt).contains(t) ==> country_tags.contains(t) || exists|k: int|
                0 <= k < ns.len() && #[trigger] shown_partner(ns[k], country_tags, opt, t),
{
    lemma_partner_tags_come_from(ns, country_tags, opt);
    lemma_add_missing(partner_tags(ns, country_tags, opt), country_tags);
}

/// With `show_all` off, the web map's colour for an owned province is its
/// owner's colour where the owner is asked for, and grey otherwise: as
/// `owner_color` gets the lists of tags crosswise there, the allies and
/// subjects shown, `sub_overlord_col` and the blending change nothing.
pub proof fn lemma_web_owner_color(owner: NationView, country_tags: Seq<Seq<char>>, ns: Seq<NationView>, opt: ImageOptions)
    requires
        !opt.show_all,
    ensures
        owner_color(owner, country_tags, shown_tags(country_tags, ns, opt), ns, opt) == if country_tags.contains(
            owner.tag,
        ) {
            nation_color(owner)
        } else {
            gray()
        },
{
    lemma_shown_tags(country_tags, ns, opt);
}

proof fn lemma_web_run_color_same(
    p: Option<ProvinceView>,
    all_provinces: Seq<Province>,
    country_tags: Seq<String>,
    countries: Seq<Nation>,
    opt1: ImageOptions,
    opt2: ImageOptions,
)
    requires
        !opt1.show_all,
        !opt2.show_all,
    ensures
        run_color(p, context_of(all_provinces, country_tags, countries, opt1)) == run_color(
            p,
            context_of(all_provinces, country_tags, countries, opt2),
        ),
{
    if let Some(q) = p {
        if let Some(o) = q.owner {
            lemma_web_owner_color(o, strings_view(country_tags), nations_view(countries), opt1);
            lemma_web_owner_color(o, strings_view(country_tags), nations_view(countries), opt2);
        }
    }
}

/// With `show_all` off, the web map is the same whatever the other options
/// but the continent say: `show_allies`, `show_subjects`, the blending and
/// `sub_overlord_col` change neither the painting nor the PNG (see
/// `lemma_web_owner_color`).
pub proof fn lemma_web_map_ignores_partner_options(
    all_provinces: Seq<Province>,
    country_tags: Seq<String>,
    countries: Seq<Nation>,
    opt1: ImageOptions,
    opt2: ImageOptions,
    recs: Seq<(u32, u32, i32)>,
)
    requires
        !opt1.show_all,
        !opt2.show_all,
    ensures
        paint_records(context_of(all_provinces, country_tags, countries, opt1), recs) == paint_records(
            context_of(all_provinces, country_tags, countries, opt2),
            recs,
        ),
        rendered_map(context_of(all_provinces, country_tags, countries, opt1), recs) == rendered_map(
            context_of(all_provinces, country_tags, countries, opt2),
            recs,
        ),
        opt1.continent == opt2.continent ==> map_png(
            rendered_map(context_of(all_provinces, country_tags, countries, opt1), recs),
            opt1.continent,
        ) == map_png(rendered_map(context_of(all_provinces, country_tags, countries, opt2), recs), opt2.continent),
    decreases recs.len(),
{
    let c1 = context_of(all_provinces, country_tags, countries, opt1);
    let c2 = context_of(all_provinces, country_tags, countries, opt2);
    if recs.len() > 0 {
        lemma_web_map_ignores_partner_options(all_provinces, country_tags, countries, opt1, opt2, recs.drop_last());
        if let Some(st) = paint_records(c1, recs.drop_last()) {
            lemma_web_run_color_same(
                find_province(c1.provinces, st.prev_id as int),
                all_provinces,
                country_tags,
                countries,
                opt1,
                opt2,
            );
            assert(paint_step(st, recs.last(), c1) == paint_step(st, recs.last(), c2));
        }
    }
    let st = paint_records(c1, recs)->0;
    assert(last_run_color(find_province(c1.provinces, st.prev_id as int), c1) == last_run_color(
        find_province(c2.provinces, st.prev_id as int),
        c2,
    ));
}

/// A nation that is not asked for (without `show_all`) is no ally's or
/// overlord's: it changes nothing of the search but the owner's own colour,
/// which its entry gives when it is the owner.
pub proof fn lemma_scan_skips_nations_not_asked_for(
    s: Scan,
    n: NationView,
    owner: NationView,
    country_tags: Seq<Seq<char>>,
    opt: ImageOptions,
)
    requires
        !country_tags.contains(n.tag),
        !opt.show_all,
    ensures
        scan_step(ScanResult::Going(s), n, owner, country_tags, opt) == ScanResult::Going(
            if n.tag == owner.tag {
                Scan { sub: nation_color(owner), ..s }
            } else {
                s
            },
        ),
{
}

/// An ally or overlord found by the search is a nation asked for (or any
/// nation with `show_all`) that has the owner as ally or subject, and the
/// colour it gives is that nation's.
pub proof fn lemma_scan_lord_is_shown(
    ns: Seq<NationView>,
    owner: NationView,
    country_tags: Seq<Seq<char>>,
    opt: ImageOptions,
)
    ensures
        match scan_nations(ns, owner, country_tags, opt) {
            ScanResult::Overlord(c) => exists|k: int|
                0 <= k < ns.len() && (country_tags.contains(ns[k].tag) || opt.show_all) && ns[k].subjects.contains(
                    owner.tag,
                ) && c == nation_color(#[trigger] ns[k]),
            ScanResult::Going(st) => (st.is_ally || st.is_subject) ==> exists|k: int|
                0 <= k < ns.len() && (country_tags.contains(ns[k].tag) || opt.show_all) && (
                ns[k].allies.contains(owner.tag) || ns[k].subjects.contains(owner.tag)) && st.lord
                    == nation_color(#[trigger] ns[k]),
        },
    decreases ns.len(),
{
    if ns.len() > 0 {
        let dl = ns.drop_last();
        lemma_scan_lord_is_shown(dl, owner, country_tags, opt);
        match scan_nations(dl, owner, country_tags, opt) {
            ScanResult::Overlord(c) => {
                let k = choose|k: int|
                    0 <= k < dl.len() && (country_tags.contains(dl[k].tag) || opt.show_all)
                        && dl[k].subjects.contains(owner.tag) && c == nation_color(#[trigger] dl[k]);
                assert(ns[k] == dl[k]);
            },
            ScanResult::Going(st) => {
                let n = ns.last();
                assert(ns[ns.len() - 1] == n);
                if st.is_ally || st.is_subject {
                    let k = choose|k: int|
                        0 <= k < dl.len() && (country_tags.contains(dl[k].tag) || opt.show_all) && (
                        dl[k].allies.contains(owner.tag) || dl[k].subjects.contains(owner.tag))
                            && st.lord == nation_color(#[trigger] dl[k]);
                    assert(ns[k] == dl[k]);
                }
            },
        }
    }
}

/// An unowned province in use that is sea or a lake is painted in the sea
/// colour, on its runs and on the last run; one not in use is grey.
pub proof fn lemma_water_is_blue(p: ProvinceView, ctx: MapContext)
    requires
        p.owner is None,
    ensures
        p.is_used && (p.is_sea || p.is_lake) ==> run_color(Some(p), ctx) == sea_color() && last_run_color(
            Some(p),
            ctx,
        ) == Some(sea_color()),
        p.is_used && !p.is_sea && !p.is_lake ==> run_color(Some(p), ctx) == gray(),
        !p.is_used ==> run_color(Some(p), ctx) == gray() && last_run_color(Some(p), ctx) == Some(gray()),
{
}

/// Once the search ends at an overlord, the nations after it change nothing.
proof fn lemma_scan_overlord_stays(
    ns: Seq<NationView>,
    k: int,
    owner: NationView,
    country_tags: Seq<Seq<char>>,
    opt: ImageOptions,
)
    requires
        0 <= k <= ns.len(),
        scan_nations(ns.take(k), owner, country_tags, opt) is Overlord,
    ensures
        scan_nations(ns, owner, country_tags, opt) == scan_nations(ns.take(k), owner, country_tags, opt),
    decreases ns.len() - k,
{
    if k < ns.len() {
        assert(ns.take(k + 1).drop_last() =~= ns.take(k));
        lemma_scan_overlord_stays(ns, k + 1, owner, country_tags, opt);
    } else {
        assert(ns.take(k) =~= ns);
    }
}

} // verus!
