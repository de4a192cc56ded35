//! Glyph metrics at one rendering size, and the rendered width of a line of
//! text: kerning between neighbours and the overhang of each glyph's
//! bounding box are both accounted for.

use crate::error::ReplaceError;
use crate::text::chars_of;
use vstd::prelude::*;

verus! {

/// The horizontal metrics of one glyph, in units.
#[derive(Clone, Copy, Debug, PartialEq, Eq, Structural)]
pub struct GlyphMetric {
    /// How far the pen moves after the glyph is drawn.
    pub advance: i32,
    /// The offset of the bounding box's left edge from the pen.
    pub bbox_left: i32,
    /// The width of the bounding box.
    pub bbox_width: i32,
}

/// The metrics of the glyph that draws `ch`.
#[derive(Clone, Copy, Debug, PartialEq, Eq, Structural)]
pub struct GlyphEntry {
    pub ch: char,
    pub metric: GlyphMetric,
}

/// The adjustment of the pen between `left` and `right` when they are
/// neighbours, in units.
#[derive(Clone, Copy, Debug, PartialEq, Eq, Structural)]
pub struct KerningEntry {
    pub left: char,
    pub right: char,
    pub adjust: i32,
}

/// The metrics of a font at a fixed rendering size. Of several entries for
/// one character, or for one pair, the first counts.
#[derive(Debug)]
pub struct MetricsTable {
    pub glyphs: Vec<GlyphEntry>,
    pub kerning: Vec<KerningEntry>,
    /// The metrics of a character that has no entry.
    pub fallback: GlyphMetric,
}

/// A metrics table as contracts see it.
pub struct MetricsView {
    pub glyphs: Seq<GlyphEntry>,
    pub kerning: Seq<KerningEntry>,
    pub fallback: GlyphMetric,
}

impl View for MetricsTable {
    type V = MetricsView;

    open spec fn view(&self) -> MetricsView {
        MetricsView { glyphs: self.glyphs@, kerning: self.kerning@, fallback: self.fallback }
    }
}

/// The metric of the first entry for `c`.
pub open spec fn find_glyph(glyphs: Seq<GlyphEntry>, c: char) -> Option<GlyphMetric>
    decreases glyphs.len(),
{
    if glyphs.len() == 0 {
        None
    } else if glyphs[0].ch == c {
        Some(glyphs[0].metric)
    } else {
        find_glyph(glyphs.drop_first(), c)
    }
}

/// The adjustment of the first entry for the pair `a`, `b`.
pub open spec fn find_kerning(kerning: Seq<KerningEntry>, a: char, b: char) -> Option<i32>
    decreases kerning.len(),
{
    if kerning.len() == 0 {
        None
    } else if kerning[0].left == a && kerning[0].right == b {
        Some(kerning[0].adjust)
    } else {
        find_kerning(kerning.drop_first(), a, b)
    }
}

impl MetricsView {
    /// The metrics of the glyph that draws `c`: those of its entry, or the
    /// fallback.
    pub open spec fn metric_of(self, c: char) -> GlyphMetric {
        match find_glyph(self.glyphs, c) {
            Some(m) => m,
            None => self.fallback,
        }
    }

    /// The kerning between neighbours; zero for a pair without an entry.
    pub open spec fn kerning_of(self, a: char, b: char) -> int {
        match find_kerning(self.kerning, a, b) {
            Some(k) => k as int,
            None => 0,
        }
    }

    /// Where the pen stands when the `i`-th glyph of `s` is drawn: each
    /// earlier glyph has advanced it, and each pair of neighbours has
    /// adjusted it.
    pub open spec fn pen_at(self, s: Seq<char>, i: int) -> int
        decreases i,
    {
        if i <= 0 {
            0
        } else {
            self.pen_at(s, i - 1) + self.metric_of(s[i - 1]).advance + self.kerning_of(
                s[i - 1],
                s[i],
            )
        }
    }

    /// The left edge of the `i`-th glyph's bounding box.
    pub open spec fn left_edge(self, s: Seq<char>, i: int) -> int {
        self.pen_at(s, i) + self.metric_of(s[i]).bbox_left
    }

    /// The right edge of the `i`-th glyph's bounding box.
    pub open spec fn right_edge(self, s: Seq<char>, i: int) -> int {
        self.left_edge(s, i) + self.metric_of(s[i]).bbox_width
    }

    /// The least of the origin and the left edges of the first `n` glyphs.
    pub open spec fn min_extent(self, s: Seq<char>, n: int) -> int
        decreases n,
    {
        if n <= 0 {
            0
        } else if self.left_edge(s, n - 1) < self.min_extent(s, n - 1) {
            self.left_edge(s, n - 1)
        } else {
            self.min_extent(s, n - 1)
        }
    }

    /// The greatest of the origin and the right edges of the first `n` glyphs.
    pub open spec fn max_extent(self, s: Seq<char>, n: int) -> int
        decreases n,
    {
        if n <= 0 {
            0
        } else if self.right_edge(s, n - 1) > self.max_extent(s, n - 1) {
            self.right_edge(s, n - 1)
        } else {
            self.max_extent(s, n - 1)
        }
    }

    /// The rendered width of `s`: the span between the extents.
    pub open spec fn text_width(self, s: Seq<char>) -> int {
        self.max_extent(s, s.len() as int) - self.min_extent(s, s.len() as int)
    }

    /// What measuring `s` returns: its width, where that fits.
    pub open spec fn measured(self, s: Seq<char>) -> Result<i64, ReplaceError> {
        if self.text_width(s) <= i64::MAX {
            Ok(self.text_width(s) as i64)
        } else {
            Err(ReplaceError::NumericRange)
        }
    }

    /// The pen never strays further than the glyphs before it can carry it.
    pub proof fn lemma_pen_bounds(self, s: Seq<char>, i: int)
        requires
            0 <= i,
        ensures
            -i * 0x1_0000_0000 <= self.pen_at(s, i) <= i * 0x1_0000_0000,
        decreases i,
    {
        if i > 0 {
            self.lemma_pen_bounds(s, i - 1);
        }
    }

    /// An empty text has no width.
    pub proof fn lemma_empty_width(self)
        ensures
            self.text_width(Seq::empty()) == 0,
            self.measured(Seq::empty()) == Ok::<i64, ReplaceError>(0),
    {
    }

    /// A single glyph whose bounding box reaches the origin is as wide as
    /// that box: no kerning takes part.
    pub proof fn lemma_single_width(self, c: char)
        requires
            self.metric_of(c).bbox_left <= 0,
            0 <= self.metric_of(c).bbox_left + self.metric_of(c).bbox_width,
        ensures
            self.text_width(seq![c]) == self.metric_of(c).bbox_width,
            self.measured(seq![c]) == Ok::<i64, ReplaceError>(self.metric_of(c).bbox_width as i64),
    {
        let s = seq![c];
        assert(self.pen_at(s, 0) == 0);
        assert(self.min_extent(s, 0) == 0);
        assert(self.max_extent(s, 0) == 0);
        assert(self.min_extent(s, 1) == self.left_edge(s, 0));
        assert(self.max_extent(s, 1) == self.right_edge(s, 0));
    }

    /// A single glyph in general: its box, stretched to the origin.
    pub proof fn lemma_single_width_general(self, c: char)
        ensures
            self.text_width(seq![c]) == (if self.metric_of(c).bbox_left + self.metric_of(
                c,
            ).bbox_width > 0 {
                self.metric_of(c).bbox_left + self.metric_of(c).bbox_width
            } else {
                0
            }) - (if self.metric_of(c).bbox_left < 0 {
                self.metric_of(c).bbox_left as int
            } else {
                0
            }),
    {
        let s = seq![c];
        assert(self.pen_at(s, 0) == 0);
        assert(self.min_extent(s, 0) == 0);
        assert(self.max_extent(s, 0) == 0);
        assert(self.min_extent(s, 1) == if self.left_edge(s, 0) < 0 {
            self.left_edge(s, 0)
        } else {
            0
        });
        assert(self.max_extent(s, 1) == if self.right_edge(s, 0) > 0 {
            self.right_edge(s, 0)
        } else {
            0
        });
    }
}

/// Measuring depends on nothing but the table's entries and the text.
pub proof fn lemma_measuring_is_a_function(a: MetricsTable, b: MetricsTable, s: Seq<char>, t: Seq<char>)
    requires
        a@ == b@,
        s == t,
    ensures
        a@.measured(s) == b@.measured(t),
{
}

/// A new last entry does not change what an earlier entry says, and speaks
/// for a character that had none.
pub proof fn lemma_find_glyph_push(glyphs: Seq<GlyphEntry>, entry: GlyphEntry, c: char)
    ensures
        find_glyph(glyphs.push(entry), c) == (if find_glyph(glyphs, c) is Some {
            find_glyph(glyphs, c)
        } else if entry.ch == c {
            Some(entry.metric)
        } else {
            None
        }),
    decreases glyphs.len(),
{
    let longer = glyphs.push(entry);
    if glyphs.len() == 0 {
        assert(longer.drop_first() =~= glyphs);
    } else {
        assert(longer[0] == glyphs[0]);
        assert(longer.drop_first() =~= glyphs.drop_first().push(entry));
        lemma_find_glyph_push(glyphs.drop_first(), entry, c);
    }
}

/// A new last entry does not change what an earlier entry says, and speaks
/// for a pair that had none.
pub proof fn lemma_find_kerning_push(kerning: Seq<KerningEntry>, entry: KerningEntry, a: char, b: char)
    ensures
        find_kerning(kerning.push(entry), a, b) == (if find_kerning(kerning, a, b) is Some {
            find_kerning(kerning, a, b)
        } else if entry.left == a && entry.right == b {
            Some(entry.adjust)
        } else {
            None
        }),
    decreases kerning.len(),
{
    let longer = kerning.push(entry);
    if kerning.len() == 0 {
        assert(longer.drop_first() =~= kerning);
    } else {
        assert(longer[0] == kerning[0]);
        assert(longer.drop_first() =~= kerning.drop_first().push(entry));
        lemma_find_kerning_push(kerning.drop_first(), entry, a, b);
    }
}

impl MetricsTable {
    /// A table without entries: every character has the metrics `fallback`,
    /// and no pair is kerned.
    pub fn new(fallback: GlyphMetric) -> (t: MetricsTable)
        ensures
            t@ == (MetricsView { glyphs: Seq::empty(), kerning: Seq::empty(), fallback }),
            forall|c: char| #[trigger] t@.metric_of(c) == fallback,
            forall|a: char, b: char| #[trigger] t@.kerning_of(a, b) == 0,
    {
        MetricsTable { glyphs: Vec::new(), kerning: Vec::new(), fallback }
    }

    /// Whether the table has an entry for `c`.
    pub fn has_glyph(&self, c: char) -> (r: bool)
        ensures
            r == (find_glyph(self@.glyphs, c) is Some),
    {
        let mut i: usize = 0;
        assert(self.glyphs@.skip(0) =~= self.glyphs@);
        while i < self.glyphs.len()
            invariant
                i <= self.glyphs.len(),
                find_glyph(self.glyphs@.skip(i as int), c) == find_glyph(self.glyphs@, c),
            decreases self.glyphs.len() - i,
        {
            if self.glyphs[i].ch == c {
                return true;
            }
            assert(self.glyphs@.skip(i as int).drop_first() =~= self.glyphs@.skip(i + 1));
            i += 1;
        }
        false
    }

    /// Whether the table has an entry for the pair `a`, `b`.
    pub fn has_kerning(&self, a: char, b: char) -> (r: bool)
        ensures
            r == (find_kerning(self@.kerning, a, b) is Some),
    {
        let mut i: usize = 0;
        assert(self.kerning@.skip(0) =~= self.kerning@);
        while i < self.kerning.len()
            invariant
                i <= self.kerning.len(),
                find_kerning(self.kerning@.skip(i as int), a, b) == find_kerning(
                    self.kerning@,
                    a,
                    b,
                ),
            decreases self.kerning.len() - i,
        {
            if self.kerning[i].left == a && self.kerning[i].right == b {
                return true;
            }
            assert(self.kerning@.skip(i as int).drop_first() =~= self.kerning@.skip(i + 1));
            i += 1;
        }
        false
    }

    /// Gives `c` the metrics `metric`, unless the table has an entry for it
    /// already. Returns whether the entry was added.
    pub fn add_glyph(&mut self, c: char, metric: GlyphMetric) -> (added: bool)
        ensures
            added == (find_glyph(old(self)@.glyphs, c) is None),
            final(self)@ == (if added {
                MetricsView {
                    glyphs: old(self)@.glyphs.push(GlyphEntry { ch: c, metric }),
                    kerning: old(self)@.kerning,
                    fallback: old(self)@.fallback,
                }
            } else {
                old(self)@
            }),
            added ==> final(self)@.metric_of(c) == metric,
            forall|d: char| d != c ==> #[trigger] final(self)@.metric_of(d) == old(self)@.metric_of(d),
            forall|a: char, b: char| #[trigger]
                final(self)@.kerning_of(a, b) == old(self)@.kerning_of(a, b),
    {
        if self.has_glyph(c) {
            return false;
        }
        let entry = GlyphEntry { ch: c, metric };
        proof {
            assert forall|d: char| true implies find_glyph(self@.glyphs.push(entry), d) == (if d
                == c {
                Some(metric)
            } else {
                find_glyph(self@.glyphs, d)
            }) by {
                lemma_find_glyph_push(self@.glyphs, entry, d);
            }
        }
        self.glyphs.push(entry);
        true
    }

    /// Kerns the pair `a`, `b` by `adjust`, unless the table has an entry
    /// for it already. Returns whether the entry was added.
    pub fn add_kerning(&mut self, a: char, b: char, adjust: i32) -> (added: bool)
        ensures
            added == (find_kerning(old(self)@.kerning, a, b) is None),
            final(self)@ == (if added {
                MetricsView {
                    glyphs: old(self)@.glyphs,
                    kerning: old(self)@.kerning.push(KerningEntry { left: a, right: b, adjust }),
                    fallback: old(self)@.fallback,
                }
            } else {
                old(self)@
            }),
            added ==> final(self)@.kerning_of(a, b) == adjust,
            forall|x: char, y: char|
                !(x == a && y == b) ==> #[trigger] final(self)@.kerning_of(x, y) == old(
                    self,
                )@.kerning_of(x, y),
            forall|c: char| #[trigger] final(self)@.metric_of(c) == old(self)@.metric_of(c),
    {
        if self.has_kerning(a, b) {
            return false;
        }
        let entry = KerningEntry { left: a, right: b, adjust };
        proof {
            assert forall|x: char, y: char| true implies find_kerning(
                self@.kerning.push(entry),
                x,
                y,
            ) == (if x == a && y == b {
                Some(adjust)
            } else {
                find_kerning(self@.kerning, x, y)
            }) by {
                lemma_find_kerning_push(self@.kerning, entry, x, y);
            }
        }
        self.kerning.push(entry);
        true
    }

    /// The metrics of the glyph that draws `c`.
    pub fn metric(&self, c: char) -> (m: GlyphMetric)
        ensures
            m == self@.metric_of(c),
    {
        let mut i: usize = 0;
        assert(self.glyphs@.skip(0) =~= self.glyphs@);
        while i < self.glyphs.len()
            invariant
                i <= self.glyphs.len(),
                find_glyph(self.glyphs@.skip(i as int), c) == find_glyph(self.glyphs@, c),
            decreases self.glyphs.len() - i,
        {
            if self.glyphs[i].ch == c {
                return self.glyphs[i].metric;
            }
            assert(self.glyphs@.skip(i as int).drop_first() =~= self.glyphs@.skip(i + 1));
            i += 1;
        }
        self.fallback
    }

    /// The kerning between `a` and `b` as neighbours.
    pub fn kern(&self, a: char, b: char) -> (k: i32)
        ensures
            k == self@.kerning_of(a, b),
    {
        let mut i: usize = 0;
        assert(self.kerning@.skip(0) =~= self.kerning@);
        while i < self.kerning.len()
            invariant
                i <= self.kerning.len(),
                find_kerning(self.kerning@.skip(i as int), a, b) == find_kerning(
                    self.kerning@,
                    a,
                    b,
                ),
            decreases self.kerning.len() - i,
        {
            if self.kerning[i].left == a && self.kerning[i].right == b {
                return self.kerning[i].adjust;
            }
            assert(self.kerning@.skip(i as int).drop_first() =~= self.kerning@.skip(i + 1));
            i += 1;
        }
        0
    }

    /// The rendered width of `text` in units. Fails with `NumericRange`
    /// where the width does not fit.
    pub fn width_of(&self, text: &str) -> (r: Result<i64, ReplaceError>)
        ensures
            r == self@.measured(text@),
    {
        let v = chars_of(text);
        let ghost s = v@;
        let mut after: i128 = 0;
        let mut min: i128 = 0;
        let mut max: i128 = 0;
        let mut i: usize = 0;
        while i < v.len()
            invariant
                i <= v.len(),
                s == v@,
                s == text@,
                i == 0 ==> after == 0,
                i > 0 ==> after == self@.pen_at(s, i - 1) + self@.metric_of(s[i - 1]).advance,
                min == self@.min_extent(s, i as int),
                max == self@.max_extent(s, i as int),
                -(i + 1) * 0x1_0000_0000 <= min <= 0,
                0 <= max <= (i + 1) * 0x1_0000_0000,
            decreases v.len() - i,
        {
            let ch = v[i];
            proof {
                self@.lemma_pen_bounds(s, i as int);
                if i > 0 {
                    self@.lemma_pen_bounds(s, i - 1);
                }
            }
            let pen: i128 = if i > 0 {
                after + self.kern(v[i - 1], ch) as i128
            } else {
                0
            };
            assert(pen == self@.pen_at(s, i as int));
            let m = self.metric(ch);
            let left: i128 = pen + m.bbox_left as i128;
            let right: i128 = left + m.bbox_width as i128;
            if left < min {
                min = left;
            }
            if right > max {
                max = right;
            }
            after = pen + m.advance as i128;
            i += 1;
        }
        let width: i128 = max - min;
        if width <= i64::MAX as i128 {
            Ok(width as i64)
        } else {
            Err(ReplaceError::NumericRange)
        }
    }
}

} // verus!
