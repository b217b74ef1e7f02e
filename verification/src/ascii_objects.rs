//! The glyph catalog: the multi-cell pictures that resource nodes occupy on
//! the grid, each with its dimensions and the single "path point" (access
//! coordinate) inside the picture that a player may walk to.

use vstd::prelude::*;

verus! {

use vstd::string::StrSliceExecFns;

/// A rectangular glyph: rows of characters padded to a common width, plus
/// the offset of the access coordinate within the rectangle.
pub struct AsciiObject {
    art: Vec<Vec<char>>,
    width: usize,
    height: usize,
    path_point: (usize, usize),
}

/// A row extended to width `w` with spaces.
pub open spec fn padded_row(row: Seq<char>, w: int) -> Seq<char> {
    row + Seq::new((w - row.len()) as nat, |i: int| ' ')
}

impl AsciiObject {
    /// The glyph's rows, as character sequences.
    pub closed spec fn spec_art(self) -> Seq<Seq<char>> {
        Seq::new(self.art@.len() as nat, |k: int| self.art@[k]@)
    }

    pub closed spec fn spec_width(self) -> int {
        self.width as int
    }

    pub closed spec fn spec_height(self) -> int {
        self.height as int
    }

    pub closed spec fn spec_path_point(self) -> (usize, usize) {
        self.path_point
    }

    /// The rectangle is consistent: as many rows as the height, every row
    /// exactly as long as the width.
    pub open spec fn wf(self) -> bool {
        &&& self.spec_art().len() == self.spec_height()
        &&& forall|k: int|
            0 <= k < self.spec_art().len() ==> (#[trigger] self.spec_art()[k]).len()
                == self.spec_width()
    }

    /// Builds a glyph from raw art lines: the width is the longest line, and
    /// shorter lines are padded with spaces so the rectangle is uniform.
    pub fn new(art: Vec<&str>, path_point: (usize, usize)) -> (r: Self)
        ensures
            r.wf(),
            r.spec_height() == art@.len(),
            r.spec_path_point() == path_point,
            forall|k: int|
                0 <= k < art@.len() ==> (#[trigger] art@[k])@.len() <= r.spec_width()
                    && r.spec_art()[k] == padded_row(art@[k]@, r.spec_width()),
            art@.len() == 0 ==> r.spec_width() == 0,
            art@.len() > 0 ==> exists|k: int| 0 <= k < art@.len() && (#[trigger] art@[k])@.len()
                == r.spec_width(),
    {
        let height = art.len();
        let mut width: usize = 0;
        let mut i: usize = 0;
        while i < art.len()
            invariant
                i <= art@.len(),
                forall|k: int| 0 <= k < i ==> (#[trigger] art@[k])@.len() <= width,
                i > 0 && width > 0 ==> exists|k: int|
                    0 <= k < i && (#[trigger] art@[k])@.len() == width,
                width == 0 ==> forall|k: int| 0 <= k < i ==> (#[trigger] art@[k])@.len() == 0,
                i == 0 ==> width == 0,
            decreases art@.len() - i,
        {
            let l = art[i].unicode_len();
            if l > width {
                width = l;
            }
            i += 1;
        }
        proof {
            if art@.len() > 0 && width == 0 {
                assert(art@[0]@.len() == width);
            }
        }

        let mut rows: Vec<Vec<char>> = Vec::new();
        let mut k: usize = 0;
        while k < art.len()
            invariant
                k <= art@.len(),
                rows@.len() == k,
                forall|j: int| 0 <= j < art@.len() ==> (#[trigger] art@[j])@.len() <= width,
                forall|j: int|
                    0 <= j < k ==> (#[trigger] rows@[j])@ == padded_row(art@[j]@, width as int),
            decreases art@.len() - k,
        {
            let line: &str = art[k];
            assert(line@.len() <= width);
            let n = line.unicode_len();
            let mut row: Vec<char> = Vec::new();
            let mut j: usize = 0;
            while j < n
                invariant
                    j <= n,
                    n == line@.len(),
                    row@ =~= line@.subrange(0, j as int),
                decreases n - j,
            {
                row.push(line.get_char(j));
                proof {
                    assert(row@ =~= line@.subrange(0, j + 1));
                }
                j += 1;
            }
            proof {
                assert(row@ =~= line@);
            }
            while row.len() < width
                invariant
                    line@.len() <= row@.len() <= width || row@.len() == line@.len(),
                    line@.len() <= width,
                    row@.subrange(0, line@.len() as int) =~= line@,
                    forall|m: int| line@.len() <= m < row@.len() ==> row@[m] == ' ',
                decreases width - row@.len(),
            {
                row.push(' ');
            }
            assert(row@.len() == width);
            proof {
                assert(row@ =~= padded_row(art@[k as int]@, width as int));
            }
            rows.push(row);
            k += 1;
        }
        let r = AsciiObject { art: rows, width, height, path_point };
        proof {
            assert forall|j: int|
                0 <= j < art@.len() implies r.spec_art()[j] == padded_row(
                art@[j]@,
                r.spec_width(),
            ) by {
                assert(r.spec_art()[j] == rows@[j]@);
            }
        }
        r
    }

    /// Every visible (non-space) cell of the glyph, placed at anchor
    /// `(x, y)`: exactly the cells a renderer must draw and the grid rebuild
    /// must block.
    pub fn render_at(&self, x: usize, y: usize) -> (r: Vec<(usize, usize, char)>)
        requires
            self.wf(),
            x + self.spec_width() <= usize::MAX,
            y + self.spec_height() <= usize::MAX,
        ensures
            forall|i: int|
                0 <= i < r@.len() ==> {
                    let t = #[trigger] r@[i];
                    &&& x <= t.0 < x + self.spec_width()
                    &&& y <= t.1 < y + self.spec_height()
                    &&& t.2 == self.spec_art()[t.1 - y][t.0 - x]
                    &&& t.2 != ' '
                },
            forall|dy: int, dx: int|
                0 <= dy < self.spec_height() && 0 <= dx < self.spec_width() && (
                #[trigger] self.spec_art()[dy][dx]) != ' ' ==> r@.contains(
                    (((x + dx) as usize), ((y + dy) as usize), self.spec_art()[dy][dx]),
                ),
            forall|i1: int, i2: int|
                0 <= i1 < i2 < r@.len() ==> ((#[trigger] r@[i1]).1 < (#[trigger] r@[i2]).1 || (
                r@[i1].1 == r@[i2].1 && r@[i1].0 < r@[i2].0)),
    {
        let mut r: Vec<(usize, usize, char)> = Vec::new();
        let mut dy: usize = 0;
        while dy < self.art.len()
            invariant
                self.wf(),
                x + self.spec_width() <= usize::MAX,
                y + self.spec_height() <= usize::MAX,
                dy <= self.spec_height(),
                forall|i: int|
                    0 <= i < r@.len() ==> {
                        let t = #[trigger] r@[i];
                        &&& x <= t.0 < x + self.spec_width()
                        &&& y <= t.1 < y + self.spec_height()
                        &&& t.2 == self.spec_art()[t.1 - y][t.0 - x]
                        &&& t.2 != ' '
                    },
                forall|qy: int, qx: int|
                    0 <= qy < dy && 0 <= qx < self.spec_width() && (
                    #[trigger] self.spec_art()[qy][qx]) != ' ' ==> r@.contains(
                        (((x + qx) as usize), ((y + qy) as usize), self.spec_art()[qy][qx]),
                    ),
                forall|i: int| 0 <= i < r@.len() ==> (#[trigger] r@[i]).1 < y + dy,
                forall|i1: int, i2: int|
                    0 <= i1 < i2 < r@.len() ==> ((#[trigger] r@[i1]).1 < (#[trigger] r@[i2]).1 || (
                    r@[i1].1 == r@[i2].1 && r@[i1].0 < r@[i2].0)),
            decreases self.spec_height() - dy,
        {
            let row = &self.art[dy];
            proof {
                assert(row@ == self.spec_art()[dy as int]);
                assert(self.spec_art()[dy as int].len() == self.spec_width());
            }
            let mut dx: usize = 0;
            while dx < row.len()
                invariant
                    self.wf(),
                    x + self.spec_width() <= usize::MAX,
                    y + self.spec_height() <= usize::MAX,
                    dy < self.spec_height(),
                    row@ == self.spec_art()[dy as int],
                    row@.len() == self.spec_width(),
                    dx <= self.spec_width(),
                    forall|i: int|
                        0 <= i < r@.len() ==> {
                            let t = #[trigger] r@[i];
                            &&& x <= t.0 < x + self.spec_width()
                            &&& y <= t.1 < y + self.spec_height()
                            &&& t.2 == self.spec_art()[t.1 - y][t.0 - x]
                            &&& t.2 != ' '
                        },
                    forall|qy: int, qx: int|
                        0 <= qy < dy && 0 <= qx < self.spec_width() && (
                        #[trigger] self.spec_art()[qy][qx]) != ' ' ==> r@.contains(
                            (((x + qx) as usize), ((y + qy) as usize), self.spec_art()[qy][qx]),
                        ),
                    forall|qx: int|
                        0 <= qx < dx && (#[trigger] self.spec_art()[dy as int][qx]) != ' '
                            ==> r@.contains(
                            (
                                ((x + qx) as usize),
                                ((y + dy) as usize),
                                self.spec_art()[dy as int][qx],
                            ),
                        ),
                    forall|i: int|
                        0 <= i < r@.len() ==> ((#[trigger] r@[i]).1 < y + dy || (r@[i].1 == y + dy
                            && r@[i].0 < x + dx)),
                    forall|i1: int, i2: int|
                        0 <= i1 < i2 < r@.len() ==> ((#[trigger] r@[i1]).1 < (
                        #[trigger] r@[i2]).1 || (r@[i1].1 == r@[i2].1 && r@[i1].0 < r@[i2].0)),
                decreases self.spec_width() - dx,
            {
                let c = row[dx];
                if c != ' ' {
                    let ghost prev = r@;
                    r.push((x + dx, y + dy, c));
                    proof {
                        assert(r@[r@.len() - 1] == (((x + dx as int) as usize), ((y
                            + dy as int) as usize), c));
                        assert(forall|q: (usize, usize, char)|
                            prev.contains(q) ==> r@.contains(q)) by {
                            assert forall|q: (usize, usize, char)|
                                prev.contains(q) implies r@.contains(q) by {
                                let j = choose|j: int| 0 <= j < prev.len() && prev[j] == q;
                                assert(r@[j] == q);
                            }
                        }
                    }
                }
                dx += 1;
            }
            dy += 1;
        }
        r
    }

    /// The access coordinate of a glyph anchored at `(x, y)`.
    pub fn get_path_point(&self, x: usize, y: usize) -> (r: (usize, usize))
        requires
            x + self.spec_path_point().0 <= usize::MAX,
            y + self.spec_path_point().1 <= usize::MAX,
        ensures
            r.0 == x + self.spec_path_point().0,
            r.1 == y + self.spec_path_point().1,
    {
        (x + self.path_point.0, y + self.path_point.1)
    }

    pub fn dimensions(&self) -> (r: (usize, usize))
        ensures
            r.0 == self.spec_width(),
            r.1 == self.spec_height(),
    {
        (self.width, self.height)
    }
}

/// First glyph registered under a name, if any.
pub open spec fn lookup(entries: Seq<(String, AsciiObject)>, name: Seq<char>) -> Option<
    AsciiObject,
>
    decreases entries.len(),
{
    if entries.len() == 0 {
        None
    } else if entries[0].0@ == name {
        Some(entries[0].1)
    } else {
        lookup(entries.drop_first(), name)
    }
}

/// The standard footprint the built-in catalog gives every node kind: a
/// 4-by-4 rectangle whose access coordinate is the bottom of the trunk, two
/// cells right and three cells down from the anchor.
pub open spec fn standard_glyph(o: AsciiObject) -> bool {
    &&& o.wf()
    &&& o.spec_width() == 4
    &&& o.spec_height() == 4
    &&& o.spec_path_point().0 == 2
    &&& o.spec_path_point().1 == 3
}

/// The catalog mapping resource names to their glyphs.
pub struct ResourceObjects {
    objects: Vec<(String, AsciiObject)>,
}

impl ResourceObjects {
    pub closed spec fn entries(self) -> Seq<(String, AsciiObject)> {
        self.objects@
    }

    /// Every registered glyph is a consistent rectangle.
    pub open spec fn wf(self) -> bool {
        forall|k: int| 0 <= k < self.entries().len() ==> (#[trigger] self.entries()[k]).1.wf()
    }

    /// The built-in catalog: a tree, three ore kinds, and an herb, all with
    /// the standard 4-by-4 footprint and bottom-of-trunk access coordinate.
    pub fn new() -> (r: Self)
        ensures
            r.wf(),
            lookup(r.entries(), "tree"@) matches Some(o) && standard_glyph(o),
            lookup(r.entries(), "copper"@) matches Some(o) && standard_glyph(o),
            lookup(r.entries(), "iron"@) matches Some(o) && standard_glyph(o),
            lookup(r.entries(), "gold"@) matches Some(o) && standard_glyph(o),
            lookup(r.entries(), "herb"@) matches Some(o) && standard_glyph(o),
            forall|name: Seq<char>|
                name != "tree"@ && name != "copper"@ && name != "iron"@ && name != "gold"@ && name
                    != "herb"@ ==> #[trigger] lookup(r.entries(), name) is None,
    {
        let mut objects: Vec<(String, AsciiObject)> = Vec::new();

        let mut tree_art: Vec<&str> = Vec::new();
        tree_art.push(" /\\ ");
        tree_art.push("/~~\\");
        tree_art.push(" || ");
        tree_art.push(" || ");
        let tree = AsciiObject::new(tree_art, (2, 3));
        proof {
            reveal_strlit(" /\\ ");
            reveal_strlit("/~~\\");
            reveal_strlit(" || ");
        }
        objects.push(("tree".to_owned(), tree));

        let mut copper_art: Vec<&str> = Vec::new();
        copper_art.push(" /\\ ");
        copper_art.push("(Cu)");
        copper_art.push("\\__/");
        copper_art.push(" || ");
        let copper = AsciiObject::new(copper_art, (2, 3));
        proof {
            reveal_strlit("(Cu)");
            reveal_strlit("\\__/");
        }
        objects.push(("copper".to_owned(), copper));

        let mut iron_art: Vec<&str> = Vec::new();
        iron_art.push(" /\\ ");
        iron_art.push("(Fe)");
        iron_art.push("\\__/");
        iron_art.push(" || ");
        let iron = AsciiObject::new(iron_art, (2, 3));
        proof {
            reveal_strlit("(Fe)");
        }
        objects.push(("iron".to_owned(), iron));

        let mut gold_art: Vec<&str> = Vec::new();
        gold_art.push(" /\\ ");
        gold_art.push("(Au)");
        gold_art.push("\\__/");
        gold_art.push(" || ");
        let gold = AsciiObject::new(gold_art, (2, 3));
        proof {
            reveal_strlit("(Au)");
        }
        objects.push(("gold".to_owned(), gold));

        let mut herb_art: Vec<&str> = Vec::new();
        herb_art.push(" () ");
        herb_art.push("\\||/");
        herb_art.push(" \\/ ");
        herb_art.push(" || ");
        let herb = AsciiObject::new(herb_art, (2, 3));
        proof {
            reveal_strlit(" () ");
            reveal_strlit("\\||/");
            reveal_strlit(" \\/ ");
        }
        objects.push(("herb".to_owned(), herb));

        let r = ResourceObjects { objects };
        proof {
            reveal_strlit("tree");
            reveal_strlit("copper");
            reveal_strlit("iron");
            reveal_strlit("gold");
            reveal_strlit("herb");
            let e0 = r.entries();
            let e1 = e0.drop_first();
            let e2 = e1.drop_first();
            let e3 = e2.drop_first();
            let e4 = e3.drop_first();
            let e5 = e4.drop_first();
            assert(e1[0] == e0[1] && e1[1] == e0[2] && e1[2] == e0[3] && e1[3] == e0[4]);
            assert(e2[0] == e0[2] && e2[1] == e0[3] && e2[2] == e0[4]);
            assert(e3[0] == e0[3] && e3[1] == e0[4]);
            assert(e4[0] == e0[4]);
            assert(e5.len() == 0);
            assert("tree"@.len() == 4 && "copper"@.len() == 6 && "iron"@.len() == 4
                && "gold"@.len() == 4 && "herb"@.len() == 4);
            assert("tree"@[0] == 't' && "iron"@[0] == 'i' && "gold"@[0] == 'g' && "herb"@[0]
                == 'h');
            assert("tree"@ != "copper"@ && "tree"@ != "iron"@ && "tree"@ != "gold"@ && "tree"@
                != "herb"@);
            assert("copper"@ != "iron"@ && "copper"@ != "gold"@ && "copper"@ != "herb"@);
            assert("iron"@ != "gold"@ && "iron"@ != "herb"@);
            assert("gold"@ != "herb"@);
            assert(lookup(e0, "tree"@) == Some(e0[0].1));
            assert(lookup(e1, "copper"@) == Some(e0[1].1));
            assert(lookup(e0, "copper"@) == Some(e0[1].1));
            assert(lookup(e2, "iron"@) == Some(e0[2].1));
            assert(lookup(e1, "iron"@) == lookup(e2, "iron"@));
            assert(lookup(e0, "iron"@) == Some(e0[2].1));
            assert(lookup(e3, "gold"@) == Some(e0[3].1));
            assert(lookup(e2, "gold"@) == lookup(e3, "gold"@));
            assert(lookup(e1, "gold"@) == lookup(e2, "gold"@));
            assert(lookup(e0, "gold"@) == Some(e0[3].1));
            assert(lookup(e4, "herb"@) == Some(e0[4].1));
            assert(lookup(e3, "herb"@) == lookup(e4, "herb"@));
            assert(lookup(e2, "herb"@) == lookup(e3, "herb"@));
            assert(lookup(e1, "herb"@) == lookup(e2, "herb"@));
            assert(lookup(e0, "herb"@) == Some(e0[4].1));
            assert forall|name: Seq<char>|
                name != "tree"@ && name != "copper"@ && name != "iron"@ && name != "gold"@ && name
                    != "herb"@ implies #[trigger] lookup(e0, name) is None by {
                assert(lookup(e0, name) == lookup(e1, name));
                assert(lookup(e1, name) == lookup(e2, name));
                assert(lookup(e2, name) == lookup(e3, name));
                assert(lookup(e3, name) == lookup(e4, name));
                assert(lookup(e4, name) == lookup(e5, name));
                assert(lookup(e5, name) is None);
            }
        }
        r
    }

    /// Looks a glyph up by name.
    pub fn get(&self, name: &str) -> (r: Option<&AsciiObject>)
        ensures
            match r {
                Some(o) => lookup(self.entries(), name@) == Some(*o),
                None => lookup(self.entries(), name@) is None,
            },
    {
        let needle: String = name.to_owned();
        let mut i: usize = 0;
        proof {
            assert(self.entries().skip(0) =~= self.entries());
        }
        while i < self.objects.len()
            invariant
                i <= self.entries().len(),
                needle@ == name@,
                lookup(self.entries().skip(i as int), name@) == lookup(self.entries(), name@),
            decreases self.entries().len() - i,
        {
            proof {
                assert(self.entries().skip(i as int).drop_first() =~= self.entries().skip(i + 1));
                assert(self.entries().skip(i as int)[0] == self.entries()[i as int]);
            }
            if self.objects[i].0 == needle {
                return Some(&self.objects[i].1);
            }
            i += 1;
        }
        proof {
            assert(self.entries().skip(self.entries().len() as int).len() == 0);
        }
        None
    }

    /// Registers a glyph, replacing any existing entry of the same name.
    pub fn add(&mut self, name: String, art: Vec<&str>, path_point: (usize, usize))
        requires
            old(self).wf(),
        ensures
            final(self).wf(),
            lookup(final(self).entries(), name@) matches Some(o) && o.wf() && o.spec_height()
                == art@.len() && o.spec_path_point() == path_point,
            forall|other: Seq<char>|
                other != name@ ==> #[trigger] lookup(final(self).entries(), other) == lookup(
                    old(self).entries(),
                    other,
                ),
    {
        let obj = AsciiObject::new(art, path_point);
        let mut i: usize = 0;
        while i < self.objects.len()
            invariant
                self == old(self),
                old(self).wf(),
                obj.wf(),
                obj.spec_height() == art@.len(),
                obj.spec_path_point() == path_point,
                i <= self.entries().len(),
                forall|k: int| 0 <= k < i ==> (#[trigger] self.entries()[k]).0@ != name@,
            decreases self.entries().len() - i,
        {
            if self.objects[i].0 == name {
                let ghost pre = self.objects@;
                let ghost nm = name@;
                self.objects.set(i, (name, obj));
                proof {
                    assert(self.objects@[i as int].0@ == nm);
                    lemma_lookup_update(pre, self.objects@, i as int);
                    assert forall|k: int|
                        0 <= k < self.entries().len() implies (#[trigger] self.entries()[
                    k]).1.wf() by {
                        if k != i {
                            assert(self.entries()[k] == old(self).entries()[k]);
                        }
                    }
                }
                return ;
            }
            i += 1;
        }
        let ghost pre = self.objects@;
        let ghost nm = name@;
        self.objects.push((name, obj));
        proof {
            assert(self.objects@[pre.len() as int].0@ == nm);
            lemma_lookup_append(pre, self.objects@);
            assert forall|k: int|
                0 <= k < self.entries().len() implies (#[trigger] self.entries()[k]).1.wf() by {
                if k != pre.len() {
                    assert(self.entries()[k] == old(self).entries()[k]);
                }
            }
        }
    }
}

/// Replacing the first entry that carries a name changes only that name's
/// lookup result.
proof fn lemma_lookup_update(
    pre: Seq<(String, AsciiObject)>,
    post: Seq<(String, AsciiObject)>,
    i: int,
)
    requires
        0 <= i < pre.len(),
        post.len() == pre.len(),
        forall|k: int| 0 <= k < pre.len() && k != i ==> post[k] == pre[k],
        forall|k: int| 0 <= k < i ==> (#[trigger] pre[k]).0@ != post[i].0@,
        pre[i].0@ == post[i].0@,
    ensures
        lookup(post, post[i].0@) == Some(post[i].1),
        forall|other: Seq<char>|
            other != post[i].0@ ==> #[trigger] lookup(post, other) == lookup(pre, other),
    decreases pre.len(),
{
    if i == 0 {
        assert forall|other: Seq<char>| other != post[0].0@ implies #[trigger] lookup(post, other)
            == lookup(pre, other) by {
            assert(pre.drop_first() =~= post.drop_first());
        }
    } else {
        lemma_lookup_update(pre.drop_first(), post.drop_first(), i - 1);
        assert(pre.drop_first()[i - 1] == pre[i]);
        assert(post.drop_first()[i - 1] == post[i]);
        assert(post[0] == pre[0]);
        assert forall|other: Seq<char>| other != post[i].0@ implies #[trigger] lookup(post, other)
            == lookup(pre, other) by {
            if post[0].0@ != other {
                assert(lookup(post.drop_first(), other) == lookup(pre.drop_first(), other));
            }
        }
        assert(post[0].0@ != post[i].0@);
    }
}

/// Appending an entry whose name is not yet present changes only that
/// name's lookup result.
proof fn lemma_lookup_append(pre: Seq<(String, AsciiObject)>, post: Seq<(String, AsciiObject)>)
    requires
        post.len() == pre.len() + 1,
        forall|k: int| 0 <= k < pre.len() ==> post[k] == pre[k],
        forall|k: int| 0 <= k < pre.len() ==> (#[trigger] pre[k]).0@ != post[pre.len() as int].0@,
    ensures
        lookup(post, post[pre.len() as int].0@) == Some(post[pre.len() as int].1),
        forall|other: Seq<char>|
            other != post[pre.len() as int].0@ ==> #[trigger] lookup(post, other) == lookup(
                pre,
                other,
            ),
    decreases pre.len(),
{
    if pre.len() == 0 {
        assert forall|other: Seq<char>|
            other != post[0].0@ implies #[trigger] lookup(post, other) == lookup(pre, other) by {
            assert(lookup(pre, other) is None);
            assert(post.drop_first().len() == 0);
            assert(lookup(post.drop_first(), other) is None);
        }
    } else {
        lemma_lookup_append(pre.drop_first(), post.drop_first());
        assert(post[0] == pre[0]);
        assert(post.drop_first()[pre.len() - 1] == post[pre.len() as int]);
        assert forall|other: Seq<char>|
            other != post[pre.len() as int].0@ implies #[trigger] lookup(post, other) == lookup(
            pre,
            other,
        ) by {
            if post[0].0@ != other {
                assert(lookup(post.drop_first(), other) == lookup(pre.drop_first(), other));
            }
        }
        assert(pre[0].0@ != post[pre.len() as int].0@);
    }
}

} // verus!
