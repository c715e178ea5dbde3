use vstd::prelude::*;
use crate::geometry::{clamp, clamped_sum, in_range, Offset, Pos2, COORD_LIMIT};
use crate::model::{
    input_names, names_unique, values_map, BlockFile, BlockSection, InputDefinition, InputValue,
};

verus! {

/// What the engine reads of one block: its fields, with text as character
/// sequences and input values as a map.
pub struct BlockView {
    pub id: Seq<char>,
    pub block_colour: Option<Seq<char>>,
    pub shown_element: Option<Seq<char>>,
    pub child_offset: Option<Offset>,
    pub inputs: Seq<Seq<char>>,
    pub pos: Pos2,
    pub attached_to: Option<usize>,
    pub children: Seq<usize>,
    pub values: Map<Seq<char>, Seq<char>>,
}

pub open spec fn opt_view(o: Option<String>) -> Option<Seq<char>> {
    match o {
        Some(s) => Some(s@),
        None => None,
    }
}

impl View for BlockSection {
    type V = BlockView;

    open spec fn view(&self) -> BlockView {
        BlockView {
            id: self.id@,
            block_colour: opt_view(self.block_colour),
            shown_element: opt_view(self.shown_element),
            child_offset: self.child_offset,
            inputs: input_names(self.inputs@),
            pos: self.pos,
            attached_to: self.attached_to,
            children: self.children@,
            values: values_map(self.input_values@),
        }
    }
}

impl BlockView {
    pub open spec fn offset(self) -> Offset {
        match self.child_offset {
            Some(o) => o,
            None => Offset { x: 0, y: 0 },
        }
    }

    /// The x coordinate at which this block's children sit.
    pub open spec fn anchor_x(self) -> int {
        clamp(self.pos.x + self.offset().x)
    }

    /// The y coordinate of the `t`-th child slot below this block.
    pub open spec fn slot_y(self, height: int, t: int) -> int {
        clamp(self.pos.y + height + self.offset().y + t * height)
    }

    /// The position of the `t`-th child slot below this block.
    pub open spec fn slot(self, height: int, t: int) -> Pos2 {
        Pos2 { x: self.anchor_x() as i64, y: self.slot_y(height, t) as i64 }
    }
}

/// The arena of blocks, with the engine's configuration.
pub struct BlocksForArduino {
    pub sections: Vec<BlockSection>,
    pub was_mouse_down: bool,
    pub block_width: i64,
    pub block_height: i64,
    pub snap_tolerance: i64,
}

/// The view of every block, in arena order.
pub open spec fn blocks(v: Seq<BlockSection>) -> Seq<BlockView> {
    v.map_values(|b: BlockSection| b@)
}

/// The parent link of every block.
pub open spec fn parents(s: Seq<BlockView>) -> Seq<Option<usize>> {
    s.map_values(|b: BlockView| b.attached_to)
}

/// Every stored index names a block of the arena, and no child is listed twice.
pub open spec fn links_valid(s: Seq<BlockView>) -> bool {
    forall|i: int|
        0 <= i < s.len() ==> {
            &&& (s[i].attached_to matches Some(p) ==> p < s.len())
            &&& (forall|t: int| 0 <= t < s[i].children.len() ==> s[i].children[t] < s.len())
            &&& s[i].children.no_duplicates()
        }
}

/// `attached_to` and `children` describe the same relation.
pub open spec fn mutual_inverse(s: Seq<BlockView>) -> bool {
    &&& forall|i: int, t: int|
        0 <= i < s.len() && 0 <= t < s[i].children.len() ==> s[s[i].children[t] as int].attached_to
            == Some(i as usize)
    &&& forall|j: int|
        0 <= j < s.len() && s[j].attached_to is Some ==> s[s[j].attached_to->0 as int].children.contains(
            j as usize,
        )
}

/// `r` ranks the blocks so that every parent ranks below its children.
pub open spec fn ranked(par: Seq<Option<usize>>, r: Seq<nat>) -> bool {
    &&& r.len() == par.len()
    &&& forall|j: int|
        0 <= j < par.len() && par[j] is Some && par[j]->0 < par.len() ==> #[trigger] r[par[j]->0 as int]
            < r[j]
}

/// Following parent links from any block ends at a root.
pub open spec fn acyclic(s: Seq<BlockView>) -> bool {
    exists|r: Seq<nat>| ranked(parents(s), r)
}

/// A ranking of the parent links, where one exists.
pub open spec fn rank_of(par: Seq<Option<usize>>) -> Seq<nat> {
    choose|r: Seq<nat>| ranked(par, r)
}

/// Following parent links from `k` under the ranking `r` reaches `a`.
pub open spec fn reaches(par: Seq<Option<usize>>, r: Seq<nat>, k: int, a: int) -> bool
    decreases r[k],
{
    if !(0 <= k < par.len() && r.len() == par.len()) {
        false
    } else if k == a {
        true
    } else {
        match par[k] {
            Some(p) => if p < par.len() && r[p as int] < r[k] {
                reaches(par, r, p as int, a)
            } else {
                false
            },
            None => false,
        }
    }
}

/// Block `k` lies in the subtree rooted at `a` (`a` itself included).
pub open spec fn in_subtree(s: Seq<BlockView>, k: int, a: int) -> bool {
    reaches(parents(s), rank_of(parents(s)), k, a)
}

/// The arena's structural invariant.
pub open spec fn tree_wf(s: Seq<BlockView>) -> bool {
    links_valid(s) && mutual_inverse(s) && acyclic(s)
}

/// Every coordinate held lies inside the canvas range.
pub open spec fn coords_wf(s: Seq<BlockSection>) -> bool {
    forall|i: int| 0 <= i < s.len() ==> (#[trigger] s[i]).coords_wf() && names_unique(s[i].input_values@)
}

impl BlocksForArduino {
    pub open spec fn view_blocks(&self) -> Seq<BlockView> {
        blocks(self.sections@)
    }

    /// The configuration is in range and the arena is a well-formed forest.
    pub open spec fn wf(&self) -> bool {
        &&& 0 <= self.block_width <= COORD_LIMIT
        &&& 0 <= self.block_height <= COORD_LIMIT
        &&& 0 <= self.snap_tolerance <= COORD_LIMIT
        &&& coords_wf(self.sections@)
        &&& tree_wf(self.view_blocks())
    }
}

// ---------- lemmas on the parent relation ----------

/// Following parent links never climbs to a block of higher rank.
pub proof fn lemma_reaches_rank(par: Seq<Option<usize>>, r: Seq<nat>, k: int, a: int)
    requires
        reaches(par, r, k, a),
    ensures
        0 <= a < par.len(),
        r[k] >= r[a],
    decreases r[k],
{
    if k != a {
        let p = par[k]->0 as int;
        lemma_reaches_rank(par, r, p, a);
    }
}

/// Reaching is transitive.
pub proof fn lemma_reaches_trans(par: Seq<Option<usize>>, r: Seq<nat>, k: int, a: int, b: int)
    requires
        reaches(par, r, k, a),
        reaches(par, r, a, b),
    ensures
        reaches(par, r, k, b),
    decreases r[k],
{
    if k != a {
        let p = par[k]->0 as int;
        lemma_reaches_trans(par, r, p, a, b);
        lemma_reaches_rank(par, r, k, a);
        lemma_reaches_rank(par, r, a, b);
    }
}

/// Two blocks above a common block lie one above the other.
pub proof fn lemma_reaches_fork(par: Seq<Option<usize>>, r: Seq<nat>, k: int, a: int, b: int)
    requires
        reaches(par, r, k, a),
        reaches(par, r, k, b),
    ensures
        reaches(par, r, a, b) || reaches(par, r, b, a),
    decreases r[k],
{
    if k != a && k != b {
        let p = par[k]->0 as int;
        lemma_reaches_fork(par, r, p, a, b);
    }
}

/// The rank chosen for a well-formed arena ranks it.
pub proof fn lemma_rank_of(s: Seq<BlockView>)
    requires
        acyclic(s),
    ensures
        ranked(parents(s), rank_of(parents(s))),
{
}


/// One empty value for every declared input name.
pub open spec fn empty_values(names: Seq<Seq<char>>) -> Map<Seq<char>, Seq<char>> {
    Map::new(|n: Seq<char>| names.contains(n), |n: Seq<char>| Seq::<char>::empty())
}

/// The keys of the value map are the stored names; empty texts stay empty.
pub proof fn lemma_values_map(v: Seq<InputValue>)
    ensures
        forall|n: Seq<char>|
            #![trigger values_map(v).contains_key(n)]
            values_map(v).contains_key(n) <==> exists|m: int| 0 <= m < v.len() && v[m].name@ == n,
        (forall|m: int| 0 <= m < v.len() ==> v[m].value@ == Seq::<char>::empty()) ==> forall|
            n: Seq<char>,
        |
            #![trigger values_map(v)[n]]
            values_map(v).contains_key(n) ==> values_map(v)[n] == Seq::<char>::empty(),
    decreases v.len(),
{
    if v.len() > 0 {
        let w = v.drop_last();
        lemma_values_map(w);
        assert forall|n: Seq<char>|
            values_map(v).contains_key(n) <==> exists|m: int| 0 <= m < v.len() && v[m].name@ == n by {
            if values_map(w).contains_key(n) {
                let m = choose|m: int| 0 <= m < w.len() && w[m].name@ == n;
                assert(v[m] == w[m]);
            }
            if exists|m: int| 0 <= m < v.len() && v[m].name@ == n {
                let m = choose|m: int| 0 <= m < v.len() && v[m].name@ == n;
                if m < w.len() {
                    assert(w[m] == v[m]);
                }
            }
        }
        if forall|m: int| 0 <= m < v.len() ==> v[m].value@ == Seq::<char>::empty() {
            assert forall|m: int| 0 <= m < w.len() implies w[m].value@ == Seq::<char>::empty() by {
                assert(w[m] == v[m]);
            }
            assert(v.last().value@ == Seq::<char>::empty());
            assert forall|n: Seq<char>| values_map(v).contains_key(n) implies values_map(v)[n]
                == Seq::<char>::empty() by {
                if n != v.last().name@ {
                    assert(values_map(w).contains_key(n));
                }
            }
        }
    }
}

/// What a sequence holds after one more name is appended.
pub proof fn lemma_contains_push(a: Seq<Seq<char>>, x: Seq<char>)
    ensures
        forall|n: Seq<char>| #[trigger] a.push(x).contains(n) == (a.contains(n) || n == x),
{
    assert forall|n: Seq<char>| #[trigger] a.push(x).contains(n) == (a.contains(n) || n == x) by {
        if a.push(x).contains(n) {
            let q = choose|q: int| 0 <= q < a.len() + 1 && #[trigger] a.push(x)[q] == n;
            if q < a.len() {
                assert(a[q] == n);
            }
        }
        if a.contains(n) {
            let q = choose|q: int| 0 <= q < a.len() && #[trigger] a[q] == n;
            assert(a.push(x)[q] == n);
        }
        if n == x {
            assert(a.push(x)[a.len() as int] == n);
        }
    }
}

/// Builds the input values of a block: one empty text per declared name.
pub fn build_input_values(inputs: &Vec<InputDefinition>) -> (vals: Vec<InputValue>)
    ensures
        values_map(vals@) == empty_values(input_names(inputs@)),
        names_unique(vals@),
{
    let mut vals: Vec<InputValue> = Vec::new();
    let ghost names = input_names(inputs@);
    let mut i: usize = 0;
    while i < inputs.len()
        invariant
            i <= inputs.len(),
            names == input_names(inputs@),
            names_unique(vals@),
            values_map(vals@) == empty_values(names.take(i as int)),
            forall|m: int| 0 <= m < vals.len() ==> vals[m].value@ == Seq::<char>::empty(),
        decreases inputs.len() - i,
    {
        let name = &inputs[i].name;
        let mut found = false;
        let mut m: usize = 0;
        while m < vals.len()
            invariant
                m <= vals.len(),
                found <==> exists|q: int| 0 <= q < m && vals[q].name@ == name@,
            decreases vals.len() - m,
        {
            if vals[m].name == *name {
                found = true;
            }
            m = m + 1;
        }
        proof {
            lemma_values_map(vals@);
            assert(names.take(i + 1) =~= names.take(i as int).push(name@));
        }
        if !found {
            let ghost old_vals = vals@;
            vals.push(InputValue { name: name.clone(), value: String::new() });
            proof {
                assert(vals@.drop_last() =~= old_vals);
                assert(values_map(vals@) == values_map(old_vals).insert(name@, Seq::<char>::empty()));
                lemma_contains_push(names.take(i as int), name@);
                assert(values_map(vals@) =~= empty_values(names.take(i + 1)));
                assert forall|a: int, b: int| 0 <= a < b < vals.len() implies vals[a].name@
                    != vals[b].name@ by {
                    if b == vals.len() - 1 {
                        assert(old_vals[a] == vals[a]);
                    } else {
                        assert(old_vals[a] == vals[a] && old_vals[b] == vals[b]);
                    }
                }
            }
        } else {
            proof {
                lemma_contains_push(names.take(i as int), name@);
            }
            assert(values_map(vals@) =~= empty_values(names.take(i + 1)));
        }
        i = i + 1;
    }
    assert(names.take(i as int) =~= names);
    vals
}

fn clone_opt_string(o: &Option<String>) -> (r: Option<String>)
    ensures
        opt_view(r) == opt_view(*o),
{
    match o {
        Some(s) => Some(s.clone()),
        None => None,
    }
}

fn clone_inputs(v: &Vec<InputDefinition>) -> (r: Vec<InputDefinition>)
    ensures
        input_names(r@) == input_names(v@),
{
    let mut r: Vec<InputDefinition> = Vec::new();
    let mut i: usize = 0;
    while i < v.len()
        invariant
            i <= v.len(),
            r.len() == i,
            input_names(r@) =~= input_names(v@.take(i as int)),
        decreases v.len() - i,
    {
        let ghost old_r = r@;
        r.push(InputDefinition { name: v[i].name.clone() });
        assert forall|j: int| 0 <= j < i + 1 implies #[trigger] input_names(r@)[j] == input_names(
            v@.take(i + 1),
        )[j] by {
            if j < i {
                assert(r@[j] == old_r[j]);
                assert(input_names(old_r)[j] == input_names(v@.take(i as int))[j]);
            }
        }
        assert(input_names(r@) =~= input_names(v@.take(i + 1)));
        i = i + 1;
    }
    assert(v@.take(i as int) =~= v@);
    r
}

/// A fresh root record with the static fields of `b`, placed at `pos`.
pub open spec fn fresh_copy(b: BlockView, pos: Pos2) -> BlockView {
    BlockView {
        pos: pos,
        attached_to: None,
        children: Seq::empty(),
        values: empty_values(b.inputs),
        ..b
    }
}

/// Copies the static fields of `b` into a new unattached record at `pos`.
fn copy_block(b: &BlockSection, pos: Pos2) -> (r: BlockSection)
    ensures
        r@ == fresh_copy(b@, pos),
        r.child_offset == b.child_offset,
        names_unique(r.input_values@),
{
    let inputs = clone_inputs(&b.inputs);
    let input_values = build_input_values(&inputs);
    BlockSection {
        id: b.id.clone(),
        block_colour: clone_opt_string(&b.block_colour),
        shown_element: clone_opt_string(&b.shown_element),
        child_offset: b.child_offset,
        inputs,
        pos,
        attached_to: None,
        children: Vec::new(),
        input_values,
    }
}

/// Adding an unattached, childless block keeps the arena a forest.
pub proof fn lemma_push_root(s: Seq<BlockView>, b: BlockView)
    requires
        tree_wf(s),
        b.attached_to is None,
        b.children.len() == 0,
    ensures
        tree_wf(s.push(b)),
{
    let t = s.push(b);
    let r = rank_of(parents(s));
    assert(parents(t) =~= parents(s).push(None));
    assert(ranked(parents(t), r.push(0)));
    assert forall|i: int| 0 <= i < t.len() implies {
        &&& (t[i].attached_to matches Some(p) ==> p < t.len())
        &&& (forall|q: int| 0 <= q < t[i].children.len() ==> t[i].children[q] < t.len())
        &&& t[i].children.no_duplicates()
    } by {
        if i < s.len() {
            assert(t[i] == s[i]);
        }
    }
    assert forall|i: int, q: int| 0 <= i < t.len() && 0 <= q < t[i].children.len() implies t[t[i].children[q] as int].attached_to
        == Some(i as usize) by {
        assert(i < s.len());
        assert(t[i] == s[i]);
    }
    assert forall|j: int| 0 <= j < t.len() && t[j].attached_to is Some implies t[t[j].attached_to->0 as int].children.contains(
            j as usize,
        ) by {
        assert(j < s.len());
        assert(t[j] == s[j]);
    }
}

/// Left edge of the palette column.
pub const PALETTE_X: i64 = 20;
/// Left edge of the code column.
pub const CANVAS_X: i64 = 320;
/// Blocks left of this line belong to the palette.
pub const PALETTE_EDGE: i64 = 300;
/// Top of the first stacked block.
pub const TOP_Y: i64 = 60;
/// Vertical step between blocks stacked on creation.
pub const STACK_STEP: i64 = 80;

/// The position given to the `n`-th block created in column `x`.
pub open spec fn stacked_pos(x: i64, n: int) -> Pos2 {
    Pos2 { x: x, y: clamp(TOP_Y + n * STACK_STEP) as i64 }
}

impl BlocksForArduino {
    /// An empty arena with a 140 by 90 block footprint and a snap tolerance of 12.
    pub fn new() -> (r: Self)
        ensures
            r.wf(),
            r.sections@.len() == 0,
            !r.was_mouse_down,
            r.block_width == 140,
            r.block_height == 90,
            r.snap_tolerance == 12,
    {
        Self::with_config(140, 90, 12)
    }

    /// An empty arena with the given footprint and snap tolerance.
    pub fn with_config(block_width: i64, block_height: i64, snap_tolerance: i64) -> (r: Self)
        requires
            0 <= block_width <= COORD_LIMIT,
            0 <= block_height <= COORD_LIMIT,
            0 <= snap_tolerance <= COORD_LIMIT,
        ensures
            r.wf(),
            r.sections@.len() == 0,
            !r.was_mouse_down,
            r.block_width == block_width,
            r.block_height == block_height,
            r.snap_tolerance == snap_tolerance,
    {
        let r = BlocksForArduino {
            sections: Vec::new(),
            was_mouse_down: false,
            block_width,
            block_height,
            snap_tolerance,
        };
        assert(ranked(parents(r.view_blocks()), Seq::<nat>::empty()));
        r
    }

    fn push_root(&mut self, b: BlockSection) -> (idx: usize)
        requires
            old(self).wf(),
            b.coords_wf(),
            names_unique(b.input_values@),
            b.attached_to is None,
            b.children@.len() == 0,
        ensures
            final(self).wf(),
            idx == old(self).sections@.len(),
            final(self).view_blocks() == old(self).view_blocks().push(b@),
            final(self).sections@ == old(self).sections@.push(b),
            final(self).was_mouse_down == old(self).was_mouse_down,
            final(self).block_width == old(self).block_width,
            final(self).block_height == old(self).block_height,
            final(self).snap_tolerance == old(self).snap_tolerance,
    {
        proof {
            lemma_push_root(self.view_blocks(), b@);
        }
        let idx = self.sections.len();
        self.sections.push(b);
        assert(self.view_blocks() =~= old(self).view_blocks().push(b@));
        idx
    }

    /// Places a copy of block `source` at the bottom of the code column and
    /// returns its index: a new unattached root with no children, the same
    /// static fields, and one empty value per declared input name.
    pub fn spawn_code_block(&mut self, source: usize) -> (idx: usize)
        requires
            old(self).wf(),
            source < old(self).sections@.len(),
            old(self).sections@.len() < usize::MAX,
        ensures
            final(self).wf(),
            idx == old(self).sections@.len(),
            final(self).view_blocks() == old(self).view_blocks().push(
                fresh_copy(
                    old(self).view_blocks()[source as int],
                    stacked_pos(CANVAS_X, old(self).sections@.len() as int),
                ),
            ),
            final(self).was_mouse_down == old(self).was_mouse_down,
            final(self).block_width == old(self).block_width,
            final(self).block_height == old(self).block_height,
            final(self).snap_tolerance == old(self).snap_tolerance,
    {
        let n = self.sections.len();
        let y = clamped_sum(TOP_Y, 0, 0, n, STACK_STEP);
        let pos = Pos2 { x: CANVAS_X, y };
        let b = copy_block(&self.sections[source], pos);
        assert(self.sections@[source as int].coords_wf());
        assert(self.view_blocks()[source as int] == self.sections@[source as int]@);
        self.push_root(b)
    }

    /// Adds the first section of a block definition document to the bottom of
    /// the palette column, unattached and with one empty value per declared
    /// input name, and returns its index. A document without sections, or
    /// whose child offset lies outside the canvas range, adds nothing and
    /// gives `None`.
    pub fn load_block_json(&mut self, file: BlockFile) -> (r: Option<usize>)
        requires
            old(self).wf(),
            old(self).sections@.len() < usize::MAX,
        ensures
            final(self).wf(),
            final(self).was_mouse_down == old(self).was_mouse_down,
            final(self).block_width == old(self).block_width,
            final(self).block_height == old(self).block_height,
            final(self).snap_tolerance == old(self).snap_tolerance,
            r is None <==> (file.block.sections@.len() == 0 || !file.block.sections@[0].offset().wf()),
            r is None ==> final(self).view_blocks() == old(self).view_blocks(),
            r is Some ==> r->0 == old(self).sections@.len() && final(self).view_blocks()
                == old(self).view_blocks().push(
                fresh_copy(
                    file.block.sections@[0]@,
                    stacked_pos(PALETTE_X, old(self).sections@.len() as int),
                ),
            ),
    {
        let mut sections = file.block.sections;
        if sections.len() == 0 {
            return None;
        }
        let first = sections.remove(0);
        let n = self.sections.len();
        let y = clamped_sum(TOP_Y, 0, 0, n, STACK_STEP);
        let input_values = build_input_values(&first.inputs);
        let b = BlockSection {
            id: first.id,
            block_colour: first.block_colour,
            shown_element: first.shown_element,
            child_offset: first.child_offset,
            inputs: first.inputs,
            pos: Pos2 { x: PALETTE_X, y },
            attached_to: None,
            children: Vec::new(),
            input_values,
        };
        if let Some(o) = b.child_offset {
            if !(-COORD_LIMIT <= o.x && o.x <= COORD_LIMIT && -COORD_LIMIT <= o.y && o.y <= COORD_LIMIT) {
                return None;
            }
        }
        Some(self.push_root(b))
    }
}

// ---------- snapping ----------

/// `c` with every occurrence of `v` taken out.
pub open spec fn without(c: Seq<usize>, v: usize) -> Seq<usize>
    decreases c.len(),
{
    if c.len() == 0 {
        c
    } else if c.last() == v {
        without(c.drop_last(), v)
    } else {
        without(c.drop_last(), v).push(c.last())
    }
}

/// `without` keeps exactly the other entries, and keeps them distinct.
pub proof fn lemma_without(c: Seq<usize>, v: usize)
    ensures
        forall|x: usize| #[trigger] without(c, v).contains(x) <==> (c.contains(x) && x != v),
        c.no_duplicates() ==> without(c, v).no_duplicates(),
    decreases c.len(),
{
    if c.len() > 0 {
        let d = c.drop_last();
        lemma_without(d, v);
        assert forall|x: usize| #[trigger] c.contains(x) <==> (d.contains(x) || x == c.last()) by {
            if c.contains(x) {
                let q = choose|q: int| 0 <= q < c.len() && c[q] == x;
                if q < d.len() {
                    assert(d[q] == x);
                }
            }
            if d.contains(x) {
                let q = choose|q: int| 0 <= q < d.len() && d[q] == x;
                assert(c[q] == x);
            }
        }
        if c.last() != v {
            let w = without(d, v);
            assert forall|x: usize| #[trigger] w.push(c.last()).contains(x) <==> (w.contains(x) || x
                == c.last()) by {
                if w.push(c.last()).contains(x) {
                    let q = choose|q: int| 0 <= q < w.len() + 1 && w.push(c.last())[q] == x;
                    if q < w.len() {
                        assert(w[q] == x);
                    }
                }
                if w.contains(x) {
                    let q = choose|q: int| 0 <= q < w.len() && w[q] == x;
                    assert(w.push(c.last())[q] == x);
                }
                if x == c.last() {
                    assert(w.push(c.last())[w.len() as int] == x);
                }
            }
            if c.no_duplicates() {
                assert(!d.contains(c.last())) by {
                    if d.contains(c.last()) {
                        let q = choose|q: int| 0 <= q < d.len() && d[q] == c.last();
                        assert(c[q] == c[c.len() - 1]);
                    }
                }
                assert(d.no_duplicates()) by {
                    assert forall|a: int, b: int| 0 <= a < d.len() && 0 <= b < d.len() && a != b implies d[a]
                        != d[b] by {
                        assert(c[a] == d[a] && c[b] == d[b]);
                    }
                }
                assert(!w.contains(c.last()));
                assert forall|a: int, b: int|
                    0 <= a < w.len() + 1 && 0 <= b < w.len() + 1 && a != b implies w.push(c.last())[a]
                    != w.push(c.last())[b] by {
                    if a == w.len() {
                        assert(w.contains(w.push(c.last())[b]));
                    } else if b == w.len() {
                        assert(w.contains(w.push(c.last())[a]));
                    }
                }
            }
        } else {
            if c.no_duplicates() {
                assert forall|a: int, b: int| 0 <= a < d.len() && 0 <= b < d.len() && a != b implies d[a]
                    != d[b] by {
                    assert(c[a] == d[a] && c[b] == d[b]);
                }
            }
        }
    }
}

/// Copies `c` without the entries equal to `v`.
fn without_vec(c: &Vec<usize>, v: usize) -> (r: Vec<usize>)
    ensures
        r@ == without(c@, v),
{
    let mut r: Vec<usize> = Vec::new();
    let mut i: usize = 0;
    while i < c.len()
        invariant
            i <= c.len(),
            r@ == without(c@.take(i as int), v),
        decreases c.len() - i,
    {
        assert(c@.take(i + 1).drop_last() =~= c@.take(i as int));
        if c[i] != v {
            r.push(c[i]);
        }
        i = i + 1;
    }
    assert(c@.take(i as int) =~= c@);
    r
}

/// Block `idx`, released where it is, lies within tolerance of the first
/// child slot of block `j`, and `j` is not inside the subtree of `idx`.
pub open spec fn is_match(s: Seq<BlockView>, height: int, tol: int, idx: int, j: int) -> bool {
    &&& 0 <= j < s.len()
    &&& j != idx
    &&& !in_subtree(s, j, idx)
    &&& -tol < s[idx].pos.x - s[j].anchor_x() < tol
    &&& -tol < s[idx].pos.y - s[j].slot_y(height, 0) < tol
}

/// `j` is the lowest index that matches.
pub open spec fn is_first_match(s: Seq<BlockView>, height: int, tol: int, idx: int, j: int) -> bool {
    &&& is_match(s, height, tol, idx, j)
    &&& forall|k: int| 0 <= k < j ==> !is_match(s, height, tol, idx, k)
}

/// The parent that snapping block `idx` picks: the lowest matching index.
pub open spec fn first_match(s: Seq<BlockView>, height: int, tol: int, idx: int) -> Option<int> {
    if exists|j: int| is_first_match(s, height, tol, idx, j) {
        Some(choose|j: int| is_first_match(s, height, tol, idx, j))
    } else {
        None
    }
}

/// The arena after block `idx` is snapped under block `j`: it moves to the
/// first child slot of `j`, leaves its former parent's children, and is
/// appended to those of `j` (where it was not among them already).
pub open spec fn attach(s: Seq<BlockView>, height: int, idx: int, j: int) -> Seq<BlockView> {
    let b = s[idx];
    let moved = BlockView { pos: s[j].slot(height, 0), attached_to: Some(j as usize), ..b };
    if b.attached_to == Some(j as usize) {
        s.update(idx, moved)
    } else {
        let s1 = match b.attached_to {
            Some(p) => s.update(
                p as int,
                BlockView { children: without(s[p as int].children, idx as usize), ..s[p as int] },
            ),
            None => s,
        };
        s1.update(j, BlockView { children: s1[j].children.push(idx as usize), ..s1[j] }).update(
            idx,
            moved,
        )
    }
}

/// Snapping `idx` under a block outside its subtree keeps the parent links acyclic.
proof fn lemma_attach_acyclic(s: Seq<BlockView>, height: int, idx: int, j: int)
    requires
        tree_wf(s),
        0 <= idx < s.len(),
        0 <= j < s.len(),
        s.len() <= usize::MAX,
        idx != j,
        !in_subtree(s, j, idx),
    ensures
        acyclic(attach(s, height, idx, j)),
        parents(attach(s, height, idx, j)) == parents(s).update(idx, Some(j as usize)),
{
    let t = attach(s, height, idx, j);
    let par = parents(s);
    let r = rank_of(par);
    let par2 = parents(t);
    lemma_rank_of(s);
    assert(par2 =~= par.update(idx, Some(j as usize)));
    let r2 = Seq::new(
        s.len(),
        |k: int|
            if reaches(par, r, k, idx) {
                r[k] + r[j] + 1
            } else {
                r[k]
            },
    );
    assert forall|c: int|
        0 <= c < par2.len() && par2[c] is Some && par2[c]->0 < par2.len() implies #[trigger] r2[par2[c]->0 as int]
        < r2[c] by {
        if c != idx {
            let p = par[c]->0 as int;
            assert(par[c] == par2[c]);
            assert(r[par[c]->0 as int] < r[c]);
            assert(reaches(par, r, c, idx) == reaches(par, r, p, idx));
        } else {
            assert(par2[c] == Some(j as usize));
            assert(reaches(par, r, idx, idx));
            assert(!reaches(par, r, j, idx));
            assert(r2[j] == r[j]);
            assert(r2[idx] == r[idx] + r[j] + 1);
        }
    }
    assert(ranked(par2, r2));
}

/// No block of a forest lists itself as a child.
proof fn lemma_no_self_child(s: Seq<BlockView>)
    requires
        tree_wf(s),
    ensures
        forall|i: int, q: int|
            0 <= i < s.len() && 0 <= q < s[i].children.len() ==> s[i].children[q] != i,
{
    let par = parents(s);
    let r = rank_of(par);
    lemma_rank_of(s);
    assert forall|i: int, q: int| 0 <= i < s.len() && 0 <= q < s[i].children.len() implies s[i].children[q]
        != i by {
        let c = s[i].children[q] as int;
        assert(par[c] == Some(i as usize));
        assert(r[par[c]->0 as int] < r[c]);
    }
}

/// Snapping under a new parent keeps every stored index valid.
#[verifier::rlimit(60)]
proof fn lemma_attach_valid(s: Seq<BlockView>, height: int, idx: int, j: int)
    requires
        tree_wf(s),
        0 <= idx < s.len(),
        0 <= j < s.len(),
        s.len() <= usize::MAX,
        idx != j,
        s[idx].attached_to != Some(j as usize),
    ensures
        links_valid(attach(s, height, idx, j)),
{
    let t = attach(s, height, idx, j);
    let old_p = s[idx].attached_to;
    lemma_no_self_child(s);
    assert(!s[j].children.contains(idx as usize)) by {
        if s[j].children.contains(idx as usize) {
            let q = choose|q: int| 0 <= q < s[j].children.len() && s[j].children[q] == idx as usize;
            assert(s[s[j].children[q] as int].attached_to == Some(j as usize));
        }
    }
    if old_p is Some {
        lemma_without(s[old_p->0 as int].children, idx as usize);
    }
    assert forall|i: int| 0 <= i < t.len() implies {
        &&& (t[i].attached_to matches Some(p) ==> p < t.len())
        &&& (forall|q: int| 0 <= q < t[i].children.len() ==> t[i].children[q] < t.len())
        &&& t[i].children.no_duplicates()
    } by {
        if i == j {
            assert forall|q: int| 0 <= q < t[i].children.len() implies t[i].children[q] < t.len() by {
                if q < s[j].children.len() {
                    assert(t[i].children[q] == s[j].children[q]);
                }
            }
            assert forall|a: int, b: int|
                0 <= a < t[i].children.len() && 0 <= b < t[i].children.len() && a != b implies t[i].children[a]
                != t[i].children[b] by {
                if a == s[j].children.len() {
                    assert(s[j].children.contains(t[i].children[b]));
                } else if b == s[j].children.len() {
                    assert(s[j].children.contains(t[i].children[a]));
                }
            }
        } else if old_p is Some && i == old_p->0 as int {
            assert forall|q: int| 0 <= q < t[i].children.len() implies t[i].children[q] < t.len() by {
                assert(t[i].children.contains(t[i].children[q]));
            }
        }
    }
}

/// After snapping, every listed child names its lister as parent.
#[verifier::rlimit(60)]
proof fn lemma_attach_children(s: Seq<BlockView>, height: int, idx: int, j: int)
    requires
        tree_wf(s),
        0 <= idx < s.len(),
        0 <= j < s.len(),
        s.len() <= usize::MAX,
        idx != j,
        s[idx].attached_to != Some(j as usize),
    ensures
        forall|i: int, q: int| 0 <= i < s.len() && 0 <= q < attach(s, height, idx, j)[i].children.len() ==> attach(s, height, idx, j)[attach(s, height, idx, j)[i].children[q] as int].attached_to == Some(i as usize),
{
    let t = attach(s, height, idx, j);
    let old_p = s[idx].attached_to;
    lemma_no_self_child(s);
    assert(!s[j].children.contains(idx as usize)) by {
        if s[j].children.contains(idx as usize) {
            let q = choose|q: int| 0 <= q < s[j].children.len() && s[j].children[q] == idx as usize;
            assert(s[s[j].children[q] as int].attached_to == Some(j as usize));
        }
    }
    if old_p is Some {
        lemma_without(s[old_p->0 as int].children, idx as usize);
    }
    assert forall|i: int, q: int| 0 <= i < t.len() && 0 <= q < t[i].children.len() implies t[t[i].children[q] as int].attached_to
        == Some(i as usize) by {
        let c = t[i].children[q];
        if i == j {
            if q < s[j].children.len() {
                assert(c == s[j].children[q]);
                assert(c != idx);
            }
        } else if old_p is Some && i == old_p->0 as int {
            assert(t[i].children.contains(c));
            assert(s[i].children.contains(c));
            let q2 = choose|q2: int| 0 <= q2 < s[i].children.len() && s[i].children[q2] == c;
            assert(s[c as int].attached_to == Some(i as usize));
        } else {
            assert(t[i].children == s[i].children);
            assert(c == s[i].children[q]);
            assert(s[c as int].attached_to == Some(i as usize));
            if c == idx as usize {
                assert(old_p == Some(i as usize));
            }
        }
    }
}

/// After snapping, every parent lists its children.
#[verifier::rlimit(60)]
proof fn lemma_attach_parent(s: Seq<BlockView>, height: int, idx: int, j: int)
    requires
        tree_wf(s),
        0 <= idx < s.len(),
        0 <= j < s.len(),
        s.len() <= usize::MAX,
        idx != j,
        s[idx].attached_to != Some(j as usize),
    ensures
        forall|c: int| 0 <= c < s.len() && attach(s, height, idx, j)[c].attached_to is Some ==> attach(s, height, idx, j)[attach(s, height, idx, j)[c].attached_to->0 as int].children.contains(c as usize),
{
    let t = attach(s, height, idx, j);
    let old_p = s[idx].attached_to;
    lemma_no_self_child(s);
    assert(!s[j].children.contains(idx as usize)) by {
        if s[j].children.contains(idx as usize) {
            let q = choose|q: int| 0 <= q < s[j].children.len() && s[j].children[q] == idx as usize;
            assert(s[s[j].children[q] as int].attached_to == Some(j as usize));
        }
    }
    if old_p is Some {
        lemma_without(s[old_p->0 as int].children, idx as usize);
    }
    assert forall|c: int| 0 <= c < t.len() && t[c].attached_to is Some implies t[t[c].attached_to->0 as int].children.contains(
        c as usize,
    ) by {
        let q = t[c].attached_to->0 as int;
        if c == idx {
            assert(t[j].children[s[j].children.len() as int] == idx as usize);
        } else {
            assert(s[c].attached_to == t[c].attached_to);
            assert(s[q].children.contains(c as usize));
            let q2 = choose|q2: int| 0 <= q2 < s[q].children.len() && s[q].children[q2] == c as usize;
            if q == j {
                assert(t[j].children[q2] == c as usize);
            } else if old_p is Some && q == old_p->0 as int {
            } else {
                assert(t[q].children == s[q].children);
            }
        }
    }
}

/// Snapping `idx` under a new parent keeps the links valid and inverse.
proof fn lemma_attach_links(s: Seq<BlockView>, height: int, idx: int, j: int)
    requires
        tree_wf(s),
        0 <= idx < s.len(),
        0 <= j < s.len(),
        s.len() <= usize::MAX,
        idx != j,
        s[idx].attached_to != Some(j as usize),
    ensures
        links_valid(attach(s, height, idx, j)),
        mutual_inverse(attach(s, height, idx, j)),
{
    lemma_attach_valid(s, height, idx, j);
    lemma_attach_children(s, height, idx, j);
    lemma_attach_parent(s, height, idx, j);
}

/// Snapping `idx` under a block outside its subtree keeps the arena a forest.
pub proof fn lemma_attach(s: Seq<BlockView>, height: int, idx: int, j: int)
    requires
        tree_wf(s),
        0 <= idx < s.len(),
        0 <= j < s.len(),
        s.len() <= usize::MAX,
        idx != j,
        !in_subtree(s, j, idx),
    ensures
        tree_wf(attach(s, height, idx, j)),
        parents(attach(s, height, idx, j)) == parents(s).update(idx, Some(j as usize)),
{
    let t = attach(s, height, idx, j);
    lemma_attach_acyclic(s, height, idx, j);
    if s[idx].attached_to != Some(j as usize) {
        lemma_attach_links(s, height, idx, j);
    } else {
        assert forall|i: int| 0 <= i < t.len() implies t[i].children == s[i].children by {}
        assert forall|i: int, q: int| 0 <= i < t.len() && 0 <= q < t[i].children.len() implies t[t[i].children[q] as int].attached_to
            == Some(i as usize) by {
            let c = t[i].children[q] as int;
            assert(s[c].attached_to == Some(i as usize));
        }
        assert forall|c: int| 0 <= c < t.len() && t[c].attached_to is Some implies t[t[c].attached_to->0 as int].children.contains(
            c as usize,
        ) by {
            assert(t[c].attached_to == s[c].attached_to);
        }
    }
}

impl BlocksForArduino {
    /// Whether block `k` lies in the subtree rooted at block `a`.
    pub fn descends_from(&self, k: usize, a: usize) -> (r: bool)
        requires
            self.wf(),
            k < self.sections@.len(),
            a < self.sections@.len(),
        ensures
            r == in_subtree(self.view_blocks(), k as int, a as int),
    {
        let ghost s = self.view_blocks();
        let ghost par = parents(s);
        let ghost rk = rank_of(par);
        proof {
            lemma_rank_of(s);
        }
        let mut cur = k;
        loop
            invariant
                s == self.view_blocks(),
                par == parents(s),
                rk == rank_of(par),
                ranked(par, rk),
                tree_wf(s),
                s.len() == self.sections@.len(),
                cur < s.len(),
                a < s.len(),
                in_subtree(s, k as int, a as int) == reaches(par, rk, cur as int, a as int),
            decreases rk[cur as int],
        {
            if cur == a {
                return true;
            }
            assert(self.sections@[cur as int]@ == s[cur as int]);
            match self.sections[cur].attached_to {
                None => {
                    return false;
                },
                Some(p) => {
                    assert(par[cur as int] == Some(p));
                    assert(rk[par[cur as int]->0 as int] < rk[cur as int]);
                    cur = p;
                },
            }
        }
    }

    /// Moves block `idx` to `target` and makes it a child of block `j`.
    #[verifier::rlimit(100)]
    fn attach_to(&mut self, idx: usize, j: usize, target: Pos2)
        requires
            old(self).wf(),
            idx < old(self).sections@.len(),
            j < old(self).sections@.len(),
            idx != j,
            !in_subtree(old(self).view_blocks(), j as int, idx as int),
            target == old(self).view_blocks()[j as int].slot(old(self).block_height as int, 0),
            target.wf(),
        ensures
            final(self).wf(),
            final(self).view_blocks() == attach(
                old(self).view_blocks(),
                old(self).block_height as int,
                idx as int,
                j as int,
            ),
            final(self).was_mouse_down == old(self).was_mouse_down,
            final(self).block_width == old(self).block_width,
            final(self).block_height == old(self).block_height,
            final(self).snap_tolerance == old(self).snap_tolerance,
    {
        let ghost s = self.view_blocks();
        let ghost h = self.block_height as int;
        let n = self.sections.len();
        assert(s.len() == n);
        proof {
            lemma_attach(s, h, idx as int, j as int);
        }
        assert(self.sections@[idx as int]@ == s[idx as int]);
        let old_parent = self.sections[idx].attached_to;
        let same = match old_parent {
            Some(p) => p == j,
            None => false,
        };
        if !same {
            if let Some(p) = old_parent {
                assert(self.sections@[p as int]@ == s[p as int]);
                let nc = without_vec(&self.sections[p].children, idx);
                self.sections[p].children = nc;
            }
            self.sections[j].children.push(idx);
        }
        self.sections[idx].pos = target;
        self.sections[idx].attached_to = Some(j);
        assert(self.view_blocks() =~= attach(s, h, idx as int, j as int));
        assert forall|i: int| 0 <= i < self.sections@.len() implies (#[trigger] self.sections@[i]).coords_wf()
            && names_unique(self.sections@[i].input_values@) by {
            assert(old(self).sections@[i].coords_wf());
        }
    }

    /// Snaps block `idx` under the first block, in arena order, whose first
    /// child slot lies within the snap tolerance of it on both axes; blocks in
    /// the subtree of `idx` are passed over. Without such a block nothing
    /// changes.
    pub fn try_snap(&mut self, idx: usize)
        requires
            old(self).wf(),
            idx < old(self).sections@.len(),
        ensures
            final(self).wf(),
            final(self).was_mouse_down == old(self).was_mouse_down,
            final(self).block_width == old(self).block_width,
            final(self).block_height == old(self).block_height,
            final(self).snap_tolerance == old(self).snap_tolerance,
            match first_match(
                old(self).view_blocks(),
                old(self).block_height as int,
                old(self).snap_tolerance as int,
                idx as int,
            ) {
                Some(j) => final(self).view_blocks() == attach(
                    old(self).view_blocks(),
                    old(self).block_height as int,
                    idx as int,
                    j,
                ),
                None => final(self).view_blocks() == old(self).view_blocks(),
            },
    {
        let ghost s = self.view_blocks();
        let ghost h = self.block_height as int;
        let ghost tol = self.snap_tolerance as int;
        let n = self.sections.len();
        let my = self.sections[idx].pos;
        assert(self.sections@[idx as int].coords_wf());
        assert(s[idx as int].pos == my);
        let height = self.block_height;
        let tolerance = self.snap_tolerance;
        let mut j: usize = 0;
        while j < n
            invariant
                s == self.view_blocks(),
                *self == *old(self),
                self.wf(),
                n == s.len(),
                h == height,
                tol == tolerance,
                height == self.block_height,
                tolerance == self.snap_tolerance,
                idx < n,
                n == self.sections@.len(),
                my == s[idx as int].pos,
                my.wf(),
                j <= n,
                forall|k: int| 0 <= k < j ==> !is_match(s, h, tol, idx as int, k),
            decreases n - j,
        {
            if j != idx {
                assert(self.sections@[j as int].coords_wf());
                assert(self.sections@[j as int]@ == s[j as int]);
                let off = self.sections[j].offset_of();
                let base = self.sections[j].pos;
                let tx = clamped_sum(base.x, off.x, 0, 0, 0);
                let ty = clamped_sum(base.y, height, off.y, 0, 0);
                if -tolerance < my.x - tx && my.x - tx < tolerance && -tolerance < my.y - ty && my.y
                    - ty < tolerance && !self.descends_from(j, idx) {
                    assert(is_match(s, h, tol, idx as int, j as int));
                    assert(is_first_match(s, h, tol, idx as int, j as int));
                    proof {
                        let c = choose|c: int| is_first_match(s, h, tol, idx as int, c);
                        assert(c == j) by {
                            if c < j {
                                assert(!is_match(s, h, tol, idx as int, c));
                            } else if c > j {
                                assert(!is_match(s, h, tol, idx as int, j as int));
                            }
                        }
                    }
                    self.attach_to(idx, j, Pos2 { x: tx, y: ty });
                    return;
                }
            }
            j = j + 1;
        }
        assert(first_match(s, h, tol, idx as int) is None);
    }
}

// ---------- repositioning ----------

/// The largest rank.
pub open spec fn seq_max(r: Seq<nat>) -> nat
    decreases r.len(),
{
    if r.len() == 0 {
        0
    } else if seq_max(r.drop_last()) >= r.last() {
        seq_max(r.drop_last())
    } else {
        r.last()
    }
}

/// No rank exceeds the largest one.
pub proof fn lemma_seq_max(r: Seq<nat>)
    ensures
        forall|i: int| 0 <= i < r.len() ==> r[i] <= seq_max(r),
    decreases r.len(),
{
    if r.len() > 0 {
        lemma_seq_max(r.drop_last());
        assert forall|i: int| 0 <= i < r.len() implies r[i] <= seq_max(r) by {
            if i < r.len() - 1 {
                assert(r[i] == r.drop_last()[i]);
            }
        }
    }
}

/// `a` and `b` differ only in position.
pub open spec fn same_but_pos(a: BlockView, b: BlockView) -> bool {
    a == BlockView { pos: a.pos, ..b }
}

/// A child of a block in the subtree of `a` is in that subtree too.
pub proof fn lemma_child_in_subtree(s: Seq<BlockView>, p: usize, a: int, k: int)
    requires
        tree_wf(s),
        in_subtree(s, p as int, a),
        0 <= k < s.len(),
        s[k].attached_to == Some(p),
    ensures
        in_subtree(s, k, a),
{
    let par = parents(s);
    let r = rank_of(par);
    lemma_rank_of(s);
    assert(par[k] == Some(p));
    assert(r[par[k]->0 as int] < r[k]);
    if k != a {
        assert(reaches(par, r, k, a) == reaches(par, r, p as int, a));
    }
}

/// A block does not lie in the subtree of one of its children.
pub proof fn lemma_parent_not_below_child(s: Seq<BlockView>, p: usize, c: int)
    requires
        tree_wf(s),
        0 <= c < s.len(),
        s[c].attached_to == Some(p),
    ensures
        !in_subtree(s, p as int, c),
{
    let par = parents(s);
    let r = rank_of(par);
    lemma_rank_of(s);
    assert(par[c] == Some(p));
    assert(r[par[c]->0 as int] < r[c]);
    if in_subtree(s, p as int, c) {
        lemma_reaches_rank(par, r, p as int, c);
    }
}

/// The subtrees of two distinct children of one block are disjoint.
pub proof fn lemma_siblings_disjoint(s: Seq<BlockView>, p: usize, cu: int, ct: int, k: int)
    requires
        tree_wf(s),
        0 <= cu < s.len(),
        0 <= ct < s.len(),
        cu != ct,
        s[cu].attached_to == Some(p),
        s[ct].attached_to == Some(p),
        in_subtree(s, k, cu),
    ensures
        !in_subtree(s, k, ct),
{
    let par = parents(s);
    let r = rank_of(par);
    lemma_rank_of(s);
    if in_subtree(s, k, ct) {
        lemma_reaches_fork(par, r, k, cu, ct);
        assert(par[cu] == Some(p));
        assert(par[ct] == Some(p));
        assert(r[par[cu]->0 as int] < r[cu]);
        assert(r[par[ct]->0 as int] < r[ct]);
        if reaches(par, r, cu, ct) {
            assert(reaches(par, r, p as int, ct));
            lemma_parent_not_below_child(s, p, ct);
        } else {
            assert(reaches(par, r, p as int, cu));
            lemma_parent_not_below_child(s, p, cu);
        }
    }
}

/// A block strictly below `a` lies in the subtree of one of the children of `a`.
pub proof fn lemma_below_some_child(s: Seq<BlockView>, a: int, k: int)
    requires
        tree_wf(s),
        0 <= a < s.len(),
        s.len() <= usize::MAX,
        in_subtree(s, k, a),
        k != a,
    ensures
        exists|u: int|
            0 <= u < s[a].children.len() && in_subtree(s, k, #[trigger] s[a].children[u] as int),
    decreases rank_of(parents(s))[k],
{
    let par = parents(s);
    let r = rank_of(par);
    lemma_rank_of(s);
    let q = par[k]->0;
    assert(r[par[k]->0 as int] < r[k]);
    assert(reaches(par, r, k, a) == reaches(par, r, q as int, a));
    if q as int == a {
        assert(s[a].children.contains(k as usize));
        let u = choose|u: int| 0 <= u < s[a].children.len() && s[a].children[u] == k as usize;
        assert(in_subtree(s, k, s[a].children[u] as int));
    } else {
        lemma_below_some_child(s, a, q as int);
        let u = choose|u: int|
            0 <= u < s[a].children.len() && in_subtree(s, q as int, #[trigger] s[a].children[u] as int);
        lemma_child_in_subtree(s, q, s[a].children[u] as int, k);
        assert(in_subtree(s, k, s[a].children[u] as int));
    }
}

/// Parent links alone decide the subtree relation.
pub proof fn lemma_same_parents(s: Seq<BlockView>, t: Seq<BlockView>)
    requires
        parents(s) == parents(t),
    ensures
        forall|k: int, a: int| in_subtree(s, k, a) == in_subtree(t, k, a),
        acyclic(s) == acyclic(t),
{
}

/// Moving blocks keeps the arena a forest with the same parent links.
pub proof fn lemma_same_but_pos(s: Seq<BlockView>, t: Seq<BlockView>)
    requires
        tree_wf(s),
        s.len() == t.len(),
        forall|k: int| 0 <= k < s.len() ==> same_but_pos(#[trigger] t[k], s[k]),
    ensures
        tree_wf(t),
        parents(t) == parents(s),
{
    assert forall|k: int| 0 <= k < s.len() implies t[k].children == s[k].children && t[k].attached_to
        == s[k].attached_to by {
        assert(same_but_pos(t[k], s[k]));
    }
    assert(parents(t) =~= parents(s));
    lemma_same_parents(s, t);
    assert forall|i: int, q: int| 0 <= i < t.len() && 0 <= q < t[i].children.len() implies t[t[i].children[q] as int].attached_to
        == Some(i as usize) by {
        let c = s[i].children[q] as int;
        assert(s[c].attached_to == Some(i as usize));
    }
    assert forall|j: int| 0 <= j < t.len() && t[j].attached_to is Some implies t[t[j].attached_to->0 as int].children.contains(
        j as usize,
    ) by {
        assert(s[s[j].attached_to->0 as int].children.contains(j as usize));
    }
}

/// `t` is `s` after the subtree below `parent` was laid out again: only
/// positions strictly below `parent` change, and each child of a block in the
/// subtree sits in its slot, by its place in the children list.
pub open spec fn repositioned(t: Seq<BlockView>, s: Seq<BlockView>, parent: int, h: int) -> bool {
    &&& t.len() == s.len()
    &&& forall|k: int| 0 <= k < s.len() ==> same_but_pos(#[trigger] t[k], s[k])
    &&& forall|k: int|
        0 <= k < s.len() && !(in_subtree(s, k, parent) && k != parent) ==> #[trigger] t[k] == s[k]
    &&& forall|p: int, v: int|
        0 <= p < s.len() && in_subtree(s, p, parent) && 0 <= v < s[p].children.len() ==> (#[trigger] t[s[p].children[v] as int]).pos
            == t[p].slot(h, v)
}

fn copy_indices(v: &Vec<usize>) -> (r: Vec<usize>)
    ensures
        r@ == v@,
{
    let mut r: Vec<usize> = Vec::new();
    let mut i: usize = 0;
    while i < v.len()
        invariant
            i <= v.len(),
            r@ == v@.take(i as int),
        decreases v.len() - i,
    {
        r.push(v[i]);
        assert(v@.take(i + 1) =~= v@.take(i as int).push(v[i as int]));
        i = i + 1;
    }
    assert(v@.take(i as int) =~= v@);
    r
}

impl BlocksForArduino {
    /// Places every descendant of block `parent` below it: the `t`-th child
    /// of a block goes to that block's `t`-th child slot, siblings stacked one
    /// footprint height apart, depth first. Only positions inside the subtree
    /// change, `parent` itself excluded.
    #[verifier::rlimit(100)]
    pub fn move_children(&mut self, parent: usize)
        requires
            old(self).wf(),
            parent < old(self).sections@.len(),
        ensures
            final(self).wf(),
            final(self).was_mouse_down == old(self).was_mouse_down,
            final(self).block_width == old(self).block_width,
            final(self).block_height == old(self).block_height,
            final(self).snap_tolerance == old(self).snap_tolerance,
            final(self).sections@.len() == old(self).sections@.len(),
            parents(final(self).view_blocks()) == parents(old(self).view_blocks()),
            repositioned(final(self).view_blocks(), old(self).view_blocks(), parent as int, old(self).block_height as int),
        decreases seq_max(rank_of(parents(old(self).view_blocks())))
            - rank_of(parents(old(self).view_blocks()))[parent as int],
    {
        let ghost s0 = self.view_blocks();
        let ghost h = self.block_height as int;
        let ghost r = rank_of(parents(s0));
        proof {
            lemma_rank_of(s0);
            lemma_seq_max(r);
        }
        assert(self.sections@[parent as int]@ == s0[parent as int]);
        assert(self.sections@[parent as int].coords_wf());
        let base = self.sections[parent].pos;
        let off = self.sections[parent].offset_of();
        let n = self.sections.len();
        assert(s0.len() == n);
        let height = self.block_height;
        let children = copy_indices(&self.sections[parent].children);
        let mut t: usize = 0;
        while t < children.len()
            invariant
                self.wf(),
                self.was_mouse_down == old(self).was_mouse_down,
                self.block_width == old(self).block_width,
                self.snap_tolerance == old(self).snap_tolerance,
                height == self.block_height,
                height == h,
                s0 == old(self).view_blocks(),
                r == rank_of(parents(s0)),
                ranked(parents(s0), r),
                tree_wf(s0),
                parent < s0.len(),
                base == s0[parent as int].pos,
                off == s0[parent as int].offset(),
                base.wf(),
                off.wf(),
                s0.len() <= usize::MAX,
                forall|i: int| 0 <= i < r.len() ==> r[i] <= seq_max(r),
                children@ == s0[parent as int].children,
                t <= children.len(),
                self.sections@.len() == s0.len(),
                parents(self.view_blocks()) == parents(s0),
                forall|k: int|
                    0 <= k < s0.len() ==> same_but_pos(#[trigger] self.view_blocks()[k], s0[k]),
                forall|k: int|
                    0 <= k < s0.len() && !(exists|u: int|
                        0 <= u < t && in_subtree(s0, k, #[trigger] children@[u] as int)) ==> #[trigger] self.view_blocks()[k]
                        == s0[k],
                forall|u: int| 0 <= u < t ==> (#[trigger] self.view_blocks()[children@[u] as int]).pos == s0[parent as int].slot(h, u),
                forall|u: int, p: int, v: int|
                    0 <= u < t && 0 <= p < s0.len() && in_subtree(s0, p, #[trigger] children@[u] as int)
                        && 0 <= v < s0[p].children.len() ==> (#[trigger] self.view_blocks()[s0[p].children[v] as int]).pos
                        == self.view_blocks()[p].slot(h, v),
            decreases children.len() - t,
        {
            let c = children[t];
            let ghost sb = self.view_blocks();
            assert(s0[c as int].attached_to == Some(parent));
            assert(r[parents(s0)[c as int]->0 as int] < r[c as int]);
            proof {
                // the subtree of `c` is untouched so far
                assert forall|k: int| 0 <= k < s0.len() && in_subtree(s0, k, c as int) implies self.view_blocks()[k] == s0[k] by {
                    assert forall|u: int| 0 <= u < t implies !in_subtree(s0, k, #[trigger] children@[u] as int) by {
                        assert(s0[parent as int].children.no_duplicates());
                        assert(children@[u] != children@[t as int]);
                        assert(s0[children@[u] as int].attached_to == Some(parent));
                        lemma_siblings_disjoint(s0, parent, c as int, children@[u] as int, k);
                    }
                }
            }
            let x = clamped_sum(base.x, off.x, 0, 0, 0);
            let y = clamped_sum(base.y, height, off.y, t, height);
            self.sections[c].pos = Pos2 { x, y };
            let ghost sm = self.view_blocks();
            assert(sm =~= sb.update(c as int, BlockView { pos: Pos2 { x, y }, ..sb[c as int] }));
            assert(parents(sm) =~= parents(s0));
            assert forall|k: int| 0 <= k < s0.len() implies same_but_pos(#[trigger] sm[k], s0[k]) by {
                assert(same_but_pos(sb[k], s0[k]));
            }
            proof {
                lemma_same_but_pos(s0, sm);
                lemma_same_parents(s0, sm);
            }
            assert forall|i: int| 0 <= i < self.sections@.len() implies (#[trigger] self.sections@[i]).coords_wf()
                && names_unique(self.sections@[i].input_values@) by {
            }
            assert(r[c as int] <= seq_max(r));
            self.move_children(c);
            let ghost sa = self.view_blocks();
            proof {
                lemma_same_parents(s0, sa);
                lemma_child_in_subtree(s0, parent, parent as int, c as int);
                assert(x as int == s0[parent as int].anchor_x());
                assert(y as int == s0[parent as int].slot_y(h, t as int));
                assert forall|k: int| 0 <= k < s0.len() implies same_but_pos(#[trigger] sa[k], s0[k]) by {
                    assert(same_but_pos(sa[k], sm[k]));
                    assert(same_but_pos(sm[k], s0[k]));
                }
                assert forall|k: int|
                    0 <= k < s0.len() && !(exists|u: int|
                        0 <= u < t + 1 && in_subtree(s0, k, #[trigger] children@[u] as int)) implies #[trigger] sa[k]
                        == s0[k] by {
                    assert(!in_subtree(s0, k, children@[t as int] as int));
                    assert(k != c);
                    assert(sa[k] == sm[k]);
                    if exists|u: int| 0 <= u < t && in_subtree(s0, k, #[trigger] children@[u] as int) {
                        let u = choose|u: int| 0 <= u < t && in_subtree(s0, k, #[trigger] children@[u] as int);
                        assert(0 <= u < t + 1 && in_subtree(s0, k, children@[u] as int));
                    }
                }
                assert forall|u: int| 0 <= u < t + 1 implies (#[trigger] sa[children@[u] as int]).pos
                    == s0[parent as int].slot(h, u) by {
                    let cu = children@[u] as int;
                    if u < t {
                        assert(s0[parent as int].children.no_duplicates());
                        assert(s0[cu].attached_to == Some(parent));
                        lemma_siblings_disjoint(s0, parent, cu, c as int, cu);
                        assert(sa[cu] == sm[cu]);
                    } else {
                        assert(sa[cu] == sm[cu]);
                    }
                }
                assert forall|u: int, p: int, v: int|
                    0 <= u < t + 1 && 0 <= p < s0.len() && in_subtree(s0, p, #[trigger] children@[u] as int)
                        && 0 <= v < s0[p].children.len() implies (#[trigger] sa[s0[p].children[v] as int]).pos
                        == sa[p].slot(h, v) by {
                    let cu = children@[u] as int;
                    let kv = s0[p].children[v] as int;
                    assert(s0[kv].attached_to == Some(p as usize));
                    lemma_child_in_subtree(s0, p as usize, cu, kv);
                    if u < t {
                        assert(s0[parent as int].children.no_duplicates());
                        assert(s0[cu].attached_to == Some(parent));
                        lemma_siblings_disjoint(s0, parent, cu, c as int, p);
                        lemma_siblings_disjoint(s0, parent, cu, c as int, kv);
                        assert(sa[p] == sm[p]);
                        assert(sa[kv] == sm[kv]);
                        assert(sm[p] == sb[p]);
                        assert(sm[kv] == sb[kv]);
                    } else {
                        assert(sm[p].children == s0[p].children);
                    }
                }
            }
            t = t + 1;
        }
        proof {
            let sf = self.view_blocks();
            assert forall|k: int|
                0 <= k < s0.len() && !(in_subtree(s0, k, parent as int) && k != parent) implies #[trigger] sf[k]
                == s0[k] by {
                if exists|u: int| 0 <= u < t && in_subtree(s0, k, #[trigger] children@[u] as int) {
                    let u = choose|u: int| 0 <= u < t && in_subtree(s0, k, #[trigger] children@[u] as int);
                    let cu = children@[u] as int;
                    assert(s0[cu].attached_to == Some(parent));
                    lemma_child_in_subtree(s0, parent, parent as int, cu);
                    lemma_reaches_trans(parents(s0), r, k, cu, parent as int);
                    if k == parent {
                        lemma_parent_not_below_child(s0, parent, cu);
                    }
                }
            }
            assert forall|p: int, v: int|
                0 <= p < s0.len() && in_subtree(s0, p, parent as int) && 0 <= v < s0[p].children.len() implies (#[trigger] sf[s0[p].children[v] as int]).pos
                == sf[p].slot(h, v) by {
                if p == parent {
                    assert(sf[p] == s0[p]) by {
                        if exists|u: int| 0 <= u < t && in_subtree(s0, p, #[trigger] children@[u] as int) {
                            let u = choose|u: int| 0 <= u < t && in_subtree(s0, p, #[trigger] children@[u] as int);
                            assert(s0[children@[u] as int].attached_to == Some(parent));
                            lemma_parent_not_below_child(s0, parent, children@[u] as int);
                        }
                    }
                    assert(sf[children@[v] as int].pos == s0[parent as int].slot(h, v));
                } else {
                    lemma_below_some_child(s0, parent as int, p);
                    let u = choose|u: int|
                        0 <= u < s0[parent as int].children.len() && in_subtree(s0, p, #[trigger] s0[parent as int].children[u] as int);
                    assert(in_subtree(s0, p, children@[u] as int));
                }
            }
        }
    }
}

// ---------- deletion ----------

/// The number of unmarked entries among the first `k` of `m`: the index an
/// unmarked entry `k` takes once the marked ones are removed.
pub open spec fn cnt(m: Seq<bool>, k: int) -> int
    decreases k,
{
    if k <= 0 {
        0
    } else {
        cnt(m, k - 1) + if m[k - 1] {
            0int
        } else {
            1int
        }
    }
}

/// No more blocks stay below `k` than there are.
pub proof fn lemma_cnt_bounds(m: Seq<bool>, k: int)
    requires
        0 <= k,
    ensures
        0 <= cnt(m, k) <= k,
    decreases k,
{
    if k > 0 {
        lemma_cnt_bounds(m, k - 1);
    }
}

/// Removal keeps the order of the blocks that stay.
pub proof fn lemma_cnt_mono(m: Seq<bool>, a: int, b: int)
    requires
        0 <= a < b,
        !m[a],
    ensures
        cnt(m, a) < cnt(m, b),
    decreases b,
{
    if b - 1 > a {
        lemma_cnt_mono(m, a, b - 1);
    }
}

/// Every index of the smaller arena is taken by some block that stays.
pub proof fn lemma_cnt_onto(m: Seq<bool>, n: int, i: int)
    requires
        0 <= n <= m.len(),
        0 <= i < cnt(m, n),
    ensures
        exists|k: int| 0 <= k < n && !m[k] && cnt(m, k) == i,
    decreases n,
{
    if n > 0 {
        if i < cnt(m, n - 1) {
            lemma_cnt_onto(m, n - 1, i);
            let k = choose|k: int| 0 <= k < n - 1 && !m[k] && cnt(m, k) == i;
            assert(0 <= k < n && !m[k] && cnt(m, k) == i);
        } else {
            assert(!m[n - 1] && cnt(m, n - 1) == i);
        }
    }
}

/// The children of a block that stays, renumbered, without those removed.
pub open spec fn remap_children(c: Seq<usize>, m: Seq<bool>) -> Seq<usize>
    decreases c.len(),
{
    if c.len() == 0 {
        Seq::empty()
    } else {
        let r = remap_children(c.drop_last(), m);
        if m[c.last() as int] {
            r
        } else {
            r.push(cnt(m, c.last() as int) as usize)
        }
    }
}

/// A block that stays, with its references renumbered: references to removed
/// blocks are dropped, the others shifted down past the removed ones.
pub open spec fn renumber(b: BlockView, m: Seq<bool>) -> BlockView {
    BlockView {
        attached_to: match b.attached_to {
            Some(p) => if m[p as int] {
                None
            } else {
                Some(cnt(m, p as int) as usize)
            },
            None => None,
        },
        children: remap_children(b.children, m),
        ..b
    }
}

/// Which blocks deleting `idx` removes: `idx` and all its descendants.
pub open spec fn doomed(s: Seq<BlockView>, idx: int) -> Seq<bool> {
    Seq::new(s.len(), |k: int| in_subtree(s, k, idx))
}

/// The arena `t` is `s` with the marked blocks removed and the references of
/// the others renumbered.
pub open spec fn removed_from(t: Seq<BlockView>, s: Seq<BlockView>, m: Seq<bool>) -> bool {
    &&& m.len() == s.len()
    &&& t.len() == cnt(m, s.len() as int)
    &&& forall|k: int| 0 <= k < s.len() && !m[k] ==> #[trigger] t[cnt(m, k)] == renumber(s[k], m)
}

/// The renumbered children are the new indices of the children that stay, distinct.
pub proof fn lemma_remap_children(c: Seq<usize>, m: Seq<bool>)
    requires
        forall|t: int| 0 <= t < c.len() ==> c[t] < m.len(),
    ensures
        forall|x: usize|
            #[trigger] remap_children(c, m).contains(x) <==> exists|t: int|
                0 <= t < c.len() && !m[c[t] as int] && cnt(m, c[t] as int) == x,
        c.no_duplicates() && m.len() <= usize::MAX ==> remap_children(c, m).no_duplicates(),
    decreases c.len(),
{
    if c.len() > 0 {
        let d = c.drop_last();
        let r = remap_children(d, m);
        lemma_remap_children(d, m);
        assert forall|t: int| 0 <= t < d.len() implies d[t] == c[t] by {}
        if !m[c.last() as int] {
            let y = cnt(m, c.last() as int) as usize;
            lemma_cnt_bounds(m, c.last() as int);
            assert forall|x: usize| #[trigger] r.push(y).contains(x) <==> (r.contains(x) || x == y) by {
                if r.push(y).contains(x) {
                    let q = choose|q: int| 0 <= q < r.len() + 1 && r.push(y)[q] == x;
                    if q < r.len() {
                        assert(r[q] == x);
                    }
                }
                if r.contains(x) {
                    let q = choose|q: int| 0 <= q < r.len() && r[q] == x;
                    assert(r.push(y)[q] == x);
                }
                if x == y {
                    assert(r.push(y)[r.len() as int] == x);
                }
            }
            assert forall|x: usize|
                #[trigger] remap_children(c, m).contains(x) <==> exists|t: int|
                    0 <= t < c.len() && !m[c[t] as int] && cnt(m, c[t] as int) == x by {
                if exists|t: int| 0 <= t < c.len() && !m[c[t] as int] && cnt(m, c[t] as int) == x {
                    let t = choose|t: int| 0 <= t < c.len() && !m[c[t] as int] && cnt(m, c[t] as int) == x;
                    if t < d.len() {
                        assert(r.contains(x));
                    }
                }
                if r.contains(x) {
                    let t = choose|t: int| 0 <= t < d.len() && !m[d[t] as int] && cnt(m, d[t] as int) == x;
                    assert(0 <= t < c.len() && !m[c[t] as int] && cnt(m, c[t] as int) == x);
                }
            }
            if c.no_duplicates() && m.len() <= usize::MAX {
                assert(d.no_duplicates()) by {
                    assert forall|a: int, b: int| 0 <= a < d.len() && 0 <= b < d.len() && a != b implies d[a]
                        != d[b] by {
                        assert(c[a] == d[a] && c[b] == d[b]);
                    }
                }
                assert(!r.contains(y)) by {
                    if r.contains(y) {
                        let t = choose|t: int| 0 <= t < d.len() && !m[d[t] as int] && cnt(m, d[t] as int) == y;
                        assert(d[t] != c.last()) by {
                            assert(c[t] != c[c.len() - 1]);
                        }
                        lemma_cnt_bounds(m, d[t] as int);
                        if d[t] < c.last() {
                            lemma_cnt_mono(m, d[t] as int, c.last() as int);
                        } else {
                            lemma_cnt_mono(m, c.last() as int, d[t] as int);
                        }
                    }
                }
                assert forall|a: int, b: int|
                    0 <= a < r.len() + 1 && 0 <= b < r.len() + 1 && a != b implies r.push(y)[a]
                    != r.push(y)[b] by {
                    if a == r.len() {
                        assert(r.contains(r.push(y)[b]));
                    } else if b == r.len() {
                        assert(r.contains(r.push(y)[a]));
                    }
                }
            }
        } else {
            assert forall|x: usize|
                #[trigger] remap_children(c, m).contains(x) <==> exists|t: int|
                    0 <= t < c.len() && !m[c[t] as int] && cnt(m, c[t] as int) == x by {
                if exists|t: int| 0 <= t < c.len() && !m[c[t] as int] && cnt(m, c[t] as int) == x {
                    let t = choose|t: int| 0 <= t < c.len() && !m[c[t] as int] && cnt(m, c[t] as int) == x;
                    assert(t < d.len());
                    assert(r.contains(x));
                }
                if r.contains(x) {
                    let t = choose|t: int| 0 <= t < d.len() && !m[d[t] as int] && cnt(m, d[t] as int) == x;
                    assert(0 <= t < c.len() && !m[c[t] as int] && cnt(m, c[t] as int) == x);
                }
            }
            if c.no_duplicates() {
                assert forall|a: int, b: int| 0 <= a < d.len() && 0 <= b < d.len() && a != b implies d[a]
                    != d[b] by {
                    assert(c[a] == d[a] && c[b] == d[b]);
                }
            }
        }
    }
}

/// The block that stays and takes index `i` of the smaller arena.
pub open spec fn origin(m: Seq<bool>, i: int) -> int {
    choose|k: int| 0 <= k < m.len() && !m[k] && cnt(m, k) == i
}

/// The block that takes index `i` exists, stays, and is the only one to take it.
pub proof fn lemma_origin(m: Seq<bool>, i: int)
    requires
        0 <= i < cnt(m, m.len() as int),
    ensures
        0 <= origin(m, i) < m.len(),
        !m[origin(m, i)],
        cnt(m, origin(m, i)) == i,
        forall|k: int| 0 <= k < m.len() && !m[k] && cnt(m, k) == i ==> k == origin(m, i),
{
    lemma_cnt_onto(m, m.len() as int, i);
    let o = origin(m, i);
    assert forall|k: int| 0 <= k < m.len() && !m[k] && cnt(m, k) == i implies k == o by {
        if k < o {
            lemma_cnt_mono(m, k, o);
        } else if o < k {
            lemma_cnt_mono(m, o, k);
        }
    }
}

/// The parent of a block that stays stays too.
pub proof fn lemma_doomed_closed(s: Seq<BlockView>, idx: int, k: int)
    requires
        tree_wf(s),
        0 <= k < s.len(),
        !doomed(s, idx)[k],
        s[k].attached_to is Some,
    ensures
        !doomed(s, idx)[s[k].attached_to->0 as int],
{
    let p = s[k].attached_to->0;
    if in_subtree(s, p as int, idx) {
        lemma_child_in_subtree(s, p, idx, k);
    }
}

/// Removing a block's subtree and renumbering leaves a forest.
#[verifier::rlimit(80)]
pub proof fn lemma_remove_subtree(s: Seq<BlockView>, idx: int, t: Seq<BlockView>)
    requires
        tree_wf(s),
        0 <= idx < s.len(),
        s.len() <= usize::MAX,
        removed_from(t, s, doomed(s, idx)),
    ensures
        tree_wf(t),
{
    let m = doomed(s, idx);
    let n = s.len() as int;
    let par = parents(s);
    let r = rank_of(par);
    lemma_rank_of(s);
    lemma_cnt_bounds(m, n);
    assert forall|i: int| 0 <= i < t.len() implies {
        &&& (t[i].attached_to matches Some(p) ==> p < t.len())
        &&& (forall|q: int| 0 <= q < t[i].children.len() ==> t[i].children[q] < t.len())
        &&& t[i].children.no_duplicates()
    } && t[i] == renumber(s[origin(m, i)], m) by {
        lemma_origin(m, i);
        let k = origin(m, i);
        assert(t[cnt(m, k)] == renumber(s[k], m));
        lemma_remap_children(s[k].children, m);
        if s[k].attached_to is Some {
            lemma_doomed_closed(s, idx, k);
            lemma_cnt_mono(m, s[k].attached_to->0 as int, n);
            lemma_cnt_bounds(m, s[k].attached_to->0 as int);
        }
        assert forall|q: int| 0 <= q < t[i].children.len() implies t[i].children[q] < t.len() by {
            let x = t[i].children[q];
            assert(remap_children(s[k].children, m).contains(x));
            let tt = choose|tt: int|
                0 <= tt < s[k].children.len() && !m[s[k].children[tt] as int] && cnt(m, s[k].children[tt] as int) == x;
            lemma_cnt_mono(m, s[k].children[tt] as int, n);
        }
    }
    assert forall|i: int, q: int| 0 <= i < t.len() && 0 <= q < t[i].children.len() implies t[t[i].children[q] as int].attached_to
        == Some(i as usize) by {
        lemma_origin(m, i);
        let k = origin(m, i);
        lemma_remap_children(s[k].children, m);
        let x = t[i].children[q];
        assert(remap_children(s[k].children, m).contains(x));
        let tt = choose|tt: int|
            0 <= tt < s[k].children.len() && !m[s[k].children[tt] as int] && cnt(m, s[k].children[tt] as int) == x;
        let c = s[k].children[tt] as int;
        assert(s[c].attached_to == Some(k as usize));
        lemma_cnt_bounds(m, c);
        assert(t[cnt(m, c)] == renumber(s[c], m));
    }
    assert forall|j: int| 0 <= j < t.len() && t[j].attached_to is Some implies t[t[j].attached_to->0 as int].children.contains(
        j as usize,
    ) by {
        lemma_origin(m, j);
        let k = origin(m, j);
        let p = s[k].attached_to->0 as int;
        lemma_doomed_closed(s, idx, k);
        lemma_cnt_bounds(m, p);
        lemma_cnt_bounds(m, k);
        assert(s[p].children.contains(k as usize));
        let tt = choose|tt: int| 0 <= tt < s[p].children.len() && s[p].children[tt] == k as usize;
        lemma_remap_children(s[p].children, m);
        assert(t[cnt(m, p)] == renumber(s[p], m));
        assert(remap_children(s[p].children, m).contains(j as usize));
    }
    let r2 = Seq::new(t.len(), |i: int| r[origin(m, i)]);
    let par2 = parents(t);
    assert forall|i: int|
        0 <= i < par2.len() && par2[i] is Some && par2[i]->0 < par2.len() implies #[trigger] r2[par2[i]->0 as int]
        < r2[i] by {
        lemma_origin(m, i);
        let k = origin(m, i);
        let p = s[k].attached_to->0 as int;
        lemma_doomed_closed(s, idx, k);
        lemma_cnt_bounds(m, p);
        lemma_origin(m, cnt(m, p));
        assert(par[k] == s[k].attached_to);
        assert(r[par[k]->0 as int] < r[k]);
    }
    assert(ranked(par2, r2));
}

/// The number of unmarked entries.
pub open spec fn count_false(m: Seq<bool>) -> nat
    decreases m.len(),
{
    if m.len() == 0 {
        0
    } else {
        count_false(m.drop_last()) + if m.last() {
            0nat
        } else {
            1nat
        }
    }
}

/// Marking an unmarked entry lowers the unmarked count by one.
pub proof fn lemma_count_false_mark(m: Seq<bool>, i: int)
    requires
        0 <= i < m.len(),
        !m[i],
    ensures
        count_false(m.update(i, true)) + 1 == count_false(m),
    decreases m.len(),
{
    let u = m.update(i, true);
    if i < m.len() - 1 {
        assert(u.drop_last() =~= m.drop_last().update(i, true));
        lemma_count_false_mark(m.drop_last(), i);
    } else {
        assert(u.drop_last() =~= m.drop_last());
    }
}

/// Every block in the subtree of `idx` is marked, where the marks hold `idx`
/// and are closed under taking children.
pub proof fn lemma_closed_marks(s: Seq<BlockView>, idx: int, marked: Seq<bool>, k: int)
    requires
        tree_wf(s),
        marked.len() == s.len(),
        0 <= idx < s.len(),
        s.len() <= usize::MAX,
        marked[idx],
        forall|a: int, q: int|
            0 <= a < s.len() && marked[a] && 0 <= q < s[a].children.len() ==> marked[#[trigger] s[a].children[q] as int],
        in_subtree(s, k, idx),
    ensures
        marked[k],
    decreases rank_of(parents(s))[k],
{
    let par = parents(s);
    let r = rank_of(par);
    lemma_rank_of(s);
    if k != idx {
        let p = par[k]->0;
        assert(r[par[k]->0 as int] < r[k]);
        assert(reaches(par, r, k, idx) == reaches(par, r, p as int, idx));
        lemma_closed_marks(s, idx, marked, p as int);
        assert(s[p as int].children.contains(k as usize));
        let q = choose|q: int| 0 <= q < s[p as int].children.len() && s[p as int].children[q] == k as usize;
        assert(marked[s[p as int].children[q] as int]);
    }
}

impl BlocksForArduino {
    /// Marks block `idx` and all of its descendants.
    pub fn collect_descendants(&self, idx: usize) -> (marked: Vec<bool>)
        requires
            self.wf(),
            idx < self.sections@.len(),
        ensures
            marked@ == doomed(self.view_blocks(), idx as int),
    {
        let ghost s = self.view_blocks();
        let n = self.sections.len();
        let mut marked: Vec<bool> = vec![false; n];
        marked.set(idx, true);
        let mut stack: Vec<usize> = vec![idx];
        proof {
            assert(reaches(parents(s), rank_of(parents(s)), idx as int, idx as int));
        }
        while stack.len() > 0
            invariant
                s == self.view_blocks(),
                self.wf(),
                n == s.len(),
                idx < n,
                marked@.len() == n,
                marked@[idx as int],
                forall|k: int| 0 <= k < n && marked@[k] ==> in_subtree(s, k, idx as int),
                forall|q: int| 0 <= q < stack@.len() ==> stack@[q] < n && marked@[stack@[q] as int],
                stack@.no_duplicates(),
                forall|a: int, q: int|
                    0 <= a < n && marked@[a] && !stack@.contains(a as usize) && 0 <= q < s[a].children.len()
                        ==> marked@[#[trigger] s[a].children[q] as int],
            decreases count_false(marked@), stack@.len(),
        {
            let ghost st0 = stack@;
            let k = stack.pop().unwrap();
            proof {
                assert(st0 =~= stack@.push(k));
                assert(!stack@.contains(k)) by {
                    if stack@.contains(k) {
                        let q = choose|q: int| 0 <= q < stack@.len() && stack@[q] == k;
                        assert(st0[q] == st0[st0.len() - 1]);
                    }
                }
                assert forall|a: int| 0 <= a < n && a != k && !stack@.contains(a as usize) implies !#[trigger] st0.contains(
                    a as usize,
                ) by {
                    if st0.contains(a as usize) {
                        let q = choose|q: int| 0 <= q < st0.len() && st0[q] == a as usize;
                        assert(stack@[q] == a as usize);
                    }
                }
                assert forall|a: int, b: int| 0 <= a < stack@.len() && 0 <= b < stack@.len() && a != b implies stack@[a]
                    != stack@[b] by {
                    assert(st0[a] == stack@[a] && st0[b] == stack@[b]);
                }
            }
            let ghost c0 = count_false(marked@);
            let ghost l0 = stack@.len();
            assert(self.sections@[k as int]@ == s[k as int]);
            let kids = &self.sections[k].children;
            let mut t: usize = 0;
            while t < kids.len()
                invariant
                    s == self.view_blocks(),
                    self.wf(),
                    n == s.len(),
                    idx < n,
                    k < n,
                    kids@ == s[k as int].children,
                    marked@.len() == n,
                    marked@[idx as int],
                    marked@[k as int],
                    in_subtree(s, k as int, idx as int),
                    forall|j: int| 0 <= j < n && marked@[j] ==> in_subtree(s, j, idx as int),
                    forall|q: int| 0 <= q < stack@.len() ==> stack@[q] < n && marked@[stack@[q] as int],
                    stack@.no_duplicates(),
                    !stack@.contains(k),
                    forall|a: int, q: int|
                        0 <= a < n && a != k && marked@[a] && !stack@.contains(a as usize) && 0 <= q
                            < s[a].children.len() ==> marked@[#[trigger] s[a].children[q] as int],
                    forall|q: int| 0 <= q < t ==> marked@[#[trigger] kids@[q] as int],
                    t <= kids@.len(),
                    count_false(marked@) + stack@.len() == c0 + l0,
                    stack@.len() >= l0,
                decreases kids@.len() - t,
            {
                let c = kids[t];
                assert(s[k as int].children[t as int] == c);
                if !marked[c] {
                    proof {
                        lemma_count_false_mark(marked@, c as int);
                        assert(s[c as int].attached_to == Some(k));
                        lemma_child_in_subtree(s, k, idx as int, c as int);
                        assert(!stack@.contains(c)) by {
                            if stack@.contains(c) {
                                let q = choose|q: int| 0 <= q < stack@.len() && stack@[q] == c;
                            }
                        }
                    }
                    let ghost st = stack@;
                    marked.set(c, true);
                    stack.push(c);
                    proof {
                        assert forall|x: usize| #[trigger] stack@.contains(x) <==> (st.contains(x) || x == c) by {
                            if stack@.contains(x) {
                                let q = choose|q: int| 0 <= q < stack@.len() && stack@[q] == x;
                                if q < st.len() {
                                    assert(st[q] == x);
                                }
                            }
                            if st.contains(x) {
                                let q = choose|q: int| 0 <= q < st.len() && st[q] == x;
                                assert(stack@[q] == x);
                            }
                            if x == c {
                                assert(stack@[st.len() as int] == x);
                            }
                        }
                        assert forall|a: int, b: int| 0 <= a < stack@.len() && 0 <= b < stack@.len() && a != b implies stack@[a]
                            != stack@[b] by {
                            if a == st.len() {
                                assert(st.contains(stack@[b]));
                            } else if b == st.len() {
                                assert(st.contains(stack@[a]));
                            }
                        }
                    }
                }
                t = t + 1;
            }
        }
        proof {
            assert forall|k: int| 0 <= k < n implies marked@[k] == in_subtree(s, k, idx as int) by {
                if in_subtree(s, k, idx as int) {
                    lemma_closed_marks(s, idx as int, marked@, k);
                }
            }
            assert(marked@ =~= doomed(s, idx as int));
        }
        marked
    }
}

/// Renumbers a list of children, dropping the marked ones.
fn remap_vec(c: &Vec<usize>, marked: &Vec<bool>, new_idx: &Vec<usize>) -> (r: Vec<usize>)
    requires
        new_idx@.len() == marked@.len(),
        forall|j: int| 0 <= j < marked@.len() ==> new_idx@[j] as int == cnt(marked@, j),
        forall|t: int| 0 <= t < c@.len() ==> c@[t] < marked@.len(),
    ensures
        r@ == remap_children(c@, marked@),
{
    let mut r: Vec<usize> = Vec::new();
    let mut i: usize = 0;
    while i < c.len()
        invariant
            i <= c.len(),
            r@ == remap_children(c@.take(i as int), marked@),
            new_idx@.len() == marked@.len(),
            forall|j: int| 0 <= j < marked@.len() ==> new_idx@[j] as int == cnt(marked@, j),
            forall|t: int| 0 <= t < c@.len() ==> c@[t] < marked@.len(),
        decreases c.len() - i,
    {
        assert(c@.take(i + 1).drop_last() =~= c@.take(i as int));
        let x = c[i];
        if !marked[x] {
            r.push(new_idx[x]);
        }
        i = i + 1;
    }
    assert(c@.take(i as int) =~= c@);
    r
}

/// `b` with its references renumbered.
fn renumber_block(b: BlockSection, marked: &Vec<bool>, new_idx: &Vec<usize>) -> (r: BlockSection)
    requires
        new_idx@.len() == marked@.len(),
        forall|j: int| 0 <= j < marked@.len() ==> new_idx@[j] as int == cnt(marked@, j),
        forall|t: int| 0 <= t < b.children@.len() ==> b.children@[t] < marked@.len(),
        b.attached_to matches Some(p) ==> p < marked@.len(),
    ensures
        r@ == renumber(b@, marked@),
        r.pos == b.pos,
        r.child_offset == b.child_offset,
        r.input_values == b.input_values,
{
    let mut b = b;
    let na = match b.attached_to {
        Some(p) => if marked[p] {
            None
        } else {
            Some(new_idx[p])
        },
        None => None,
    };
    let nc = remap_vec(&b.children, marked, new_idx);
    b.attached_to = na;
    b.children = nc;
    b
}

/// Pushing the next renumbered block keeps the reversed copy in step.
proof fn lemma_rev_step(
    rv: Seq<BlockSection>,
    rev: Seq<BlockSection>,
    nb: BlockSection,
    m: Seq<bool>,
    s: Seq<BlockView>,
    k: int,
    total: int,
)
    requires
        0 <= k < m.len(),
        !m[k],
        rev == rv.push(nb),
        nb@ == renumber(s[k], m),
        rv.len() == total - cnt(m, k + 1),
        total == cnt(m, m.len() as int),
        forall|j: int|
            k + 1 <= j < m.len() && !m[j] ==> (#[trigger] rv[total - 1 - cnt(m, j)])@ == renumber(s[j], m),
    ensures
        rev.len() == total - cnt(m, k),
        forall|j: int|
            k <= j < m.len() && !m[j] ==> (#[trigger] rev[total - 1 - cnt(m, j)])@ == renumber(s[j], m),
{
    assert(cnt(m, k + 1) == cnt(m, k) + 1);
    assert forall|j: int|
        k <= j < m.len() && !m[j] implies (#[trigger] rev[total - 1 - cnt(m, j)])@ == renumber(s[j], m) by {
        if j > k {
            lemma_cnt_mono(m, k, j);
            lemma_cnt_mono(m, j, m.len() as int);
            assert(rev[total - 1 - cnt(m, j)] == rv[total - 1 - cnt(m, j)]);
        }
    }
}

impl BlocksForArduino {
    /// Deletes block `idx` together with every block below it. The blocks
    /// that stay keep their order; every stored index is renumbered to the
    /// smaller arena, and references to removed blocks are dropped.
    #[verifier::rlimit(100)]
    pub fn delete_block(&mut self, idx: usize)
        requires
            old(self).wf(),
            idx < old(self).sections@.len(),
        ensures
            final(self).wf(),
            final(self).was_mouse_down == old(self).was_mouse_down,
            final(self).block_width == old(self).block_width,
            final(self).block_height == old(self).block_height,
            final(self).snap_tolerance == old(self).snap_tolerance,
            removed_from(
                final(self).view_blocks(),
                old(self).view_blocks(),
                doomed(old(self).view_blocks(), idx as int),
            ),
    {
        let ghost s = self.view_blocks();
        let ghost os = self.sections@;
        let marked = self.collect_descendants(idx);
        let ghost m = marked@;
        let n = self.sections.len();
        let mut new_idx: Vec<usize> = Vec::new();
        let mut c: usize = 0;
        let mut k: usize = 0;
        while k < n
            invariant
                n == m.len(),
                marked@ == m,
                k <= n,
                new_idx@.len() == k,
                forall|j: int| 0 <= j < k ==> new_idx@[j] as int == cnt(m, j),
                c as int == cnt(m, k as int),
            decreases n - k,
        {
            proof {
                lemma_cnt_bounds(m, k as int);
            }
            new_idx.push(c);
            if !marked[k] {
                c = c + 1;
            }
            k = k + 1;
        }
        let ghost total = cnt(m, n as int);
        proof {
            lemma_cnt_bounds(m, n as int);
        }
        let mut rev: Vec<BlockSection> = Vec::new();
        let mut k: usize = n;
        while k > 0
            invariant
                self.was_mouse_down == old(self).was_mouse_down,
                self.block_width == old(self).block_width,
                self.block_height == old(self).block_height,
                self.snap_tolerance == old(self).snap_tolerance,
                0 <= self.block_width <= COORD_LIMIT,
                0 <= self.block_height <= COORD_LIMIT,
                0 <= self.snap_tolerance <= COORD_LIMIT,
                n == m.len(),
                n == s.len(),
                marked@ == m,
                m == doomed(s, idx as int),
                s == blocks(os),
                tree_wf(s),
                coords_wf(os),
                total == cnt(m, n as int),
                new_idx@.len() == n,
                forall|j: int| 0 <= j < n ==> new_idx@[j] as int == cnt(m, j),
                k <= n,
                self.sections@ == os.take(k as int),
                rev@.len() == total - cnt(m, k as int),
                forall|j: int|
                    k <= j < n && !m[j] ==> (#[trigger] rev@[total - 1 - cnt(m, j)])@ == renumber(s[j], m),
                forall|q: int|
                    0 <= q < rev@.len() ==> (#[trigger] rev@[q]).coords_wf() && names_unique(rev@[q].input_values@),
            decreases k,
        {
            let ghost rv = rev@;
            let mut b = self.sections.pop().unwrap();
            k = k - 1;
            assert(b == os[k as int]);
            assert(self.sections@ =~= os.take(k as int));
            assert(b@ == s[k as int]);
            assert(os[k as int].coords_wf());
            if !marked[k] {
                let nb = renumber_block(b, &marked, &new_idx);
                rev.push(nb);
                proof {
                    lemma_rev_step(rv, rev@, nb, m, s, k as int, total);
                }
            } else {
                assert forall|j: int|
                    k <= j < n && !m[j] implies (#[trigger] rev@[total - 1 - cnt(m, j)])@ == renumber(s[j], m) by {
                    assert(j != k);
                }
            }
        }
        let ghost r0 = rev@;
        proof {
            assert(self.sections@.len() == 0);
        }
        while rev.len() > 0
            invariant
                self.was_mouse_down == old(self).was_mouse_down,
                self.block_width == old(self).block_width,
                self.block_height == old(self).block_height,
                self.snap_tolerance == old(self).snap_tolerance,
                0 <= self.block_width <= COORD_LIMIT,
                0 <= self.block_height <= COORD_LIMIT,
                0 <= self.snap_tolerance <= COORD_LIMIT,
                rev@ == r0.take(rev@.len() as int),
                r0.len() == total,
                self.sections@.len() + rev@.len() == total,
                forall|q: int| 0 <= q < self.sections@.len() ==> #[trigger] self.sections@[q] == r0[total - 1 - q],
            decreases rev@.len(),
        {
            let b = rev.pop().unwrap();
            self.sections.push(b);
            assert(rev@ =~= r0.take(rev@.len() as int));
        }
        proof {
            let t = self.view_blocks();
            assert forall|j: int| 0 <= j < s.len() && !m[j] implies #[trigger] t[cnt(m, j)] == renumber(s[j], m) by {
                lemma_cnt_mono(m, j, n as int);
                lemma_cnt_bounds(m, j);
                assert(self.sections@[cnt(m, j)] == r0[total - 1 - cnt(m, j)]);
            }
            assert(removed_from(t, s, m));
            lemma_remove_subtree(s, idx as int, t);
            assert forall|i: int| 0 <= i < self.sections@.len() implies (#[trigger] self.sections@[i]).coords_wf()
                && names_unique(self.sections@[i].input_values@) by {
                assert(self.sections@[i] == r0[total - 1 - i]);
            }
        }
    }
}

impl BlocksForArduino {
    /// Block `i` is in the palette column.
    pub fn is_palette(&self, i: usize) -> (r: bool)
        requires
            i < self.sections@.len(),
        ensures
            r == (self.sections@[i as int].pos.x < PALETTE_EDGE),
    {
        self.sections[i].pos.x < PALETTE_EDGE
    }

    /// Records whether the primary button is down in this cycle and reports
    /// whether it was released since the previous one.
    pub fn update_pointer(&mut self, down: bool) -> (released: bool)
        ensures
            released == (old(self).was_mouse_down && !down),
            final(self).was_mouse_down == down,
            final(self).sections == old(self).sections,
            final(self).block_width == old(self).block_width,
            final(self).block_height == old(self).block_height,
            final(self).snap_tolerance == old(self).snap_tolerance,
    {
        let released = self.was_mouse_down && !down;
        self.was_mouse_down = down;
        released
    }

    /// Moves block `i` by `(dx, dy)`, clamped to the canvas range, and lays
    /// out its subtree below it again. A dragged block keeps its parent; on
    /// release it is snapped again, which may move it under another parent.
    pub fn on_drag_delta(&mut self, i: usize, dx: i64, dy: i64)
        requires
            old(self).wf(),
            i < old(self).sections@.len(),
            in_range(dx as int),
            in_range(dy as int),
        ensures
            final(self).wf(),
            final(self).was_mouse_down == old(self).was_mouse_down,
            final(self).block_width == old(self).block_width,
            final(self).block_height == old(self).block_height,
            final(self).snap_tolerance == old(self).snap_tolerance,
            parents(final(self).view_blocks()) == parents(old(self).view_blocks()),
            repositioned(
                final(self).view_blocks(),
                old(self).view_blocks().update(
                    i as int,
                    BlockView {
                        pos: Pos2 {
                            x: clamp(old(self).view_blocks()[i as int].pos.x + dx) as i64,
                            y: clamp(old(self).view_blocks()[i as int].pos.y + dy) as i64,
                        },
                        ..old(self).view_blocks()[i as int]
                    },
                ),
                i as int,
                old(self).block_height as int,
            ),
    {
        let ghost s = self.view_blocks();
        assert(self.sections@[i as int].coords_wf());
        let p = self.sections[i].pos;
        let x = clamped_sum(p.x, dx, 0, 0, 0);
        let y = clamped_sum(p.y, dy, 0, 0, 0);
        self.sections[i].pos = Pos2 { x, y };
        let ghost sm = self.view_blocks();
        assert(sm =~= s.update(i as int, BlockView { pos: Pos2 { x, y }, ..s[i as int] }));
        assert forall|k: int| 0 <= k < s.len() implies same_but_pos(#[trigger] sm[k], s[k]) by {}
        proof {
            lemma_same_but_pos(s, sm);
        }
        assert forall|k: int| 0 <= k < self.sections@.len() implies (#[trigger] self.sections@[k]).coords_wf()
            && names_unique(self.sections@[k].input_values@) by {
            assert(old(self).sections@[k].coords_wf());
        }
        self.move_children(i);
    }

    /// Snaps the released block `i` (see `try_snap`).
    pub fn on_drag_released(&mut self, i: usize)
        requires
            old(self).wf(),
            i < old(self).sections@.len(),
        ensures
            final(self).wf(),
            final(self).was_mouse_down == old(self).was_mouse_down,
            final(self).block_width == old(self).block_width,
            final(self).block_height == old(self).block_height,
            final(self).snap_tolerance == old(self).snap_tolerance,
            match first_match(
                old(self).view_blocks(),
                old(self).block_height as int,
                old(self).snap_tolerance as int,
                i as int,
            ) {
                Some(j) => final(self).view_blocks() == attach(
                    old(self).view_blocks(),
                    old(self).block_height as int,
                    i as int,
                    j,
                ),
                None => final(self).view_blocks() == old(self).view_blocks(),
            },
    {
        self.try_snap(i);
    }
}

// ---------- input values ----------

/// With distinct names, the map gives each stored name its stored text.
pub proof fn lemma_values_lookup(v: Seq<InputValue>, q: int)
    requires
        names_unique(v),
        0 <= q < v.len(),
    ensures
        values_map(v).contains_key(v[q].name@),
        values_map(v)[v[q].name@] == v[q].value@,
    decreases v.len(),
{
    if q < v.len() - 1 {
        let d = v.drop_last();
        assert(names_unique(d)) by {
            assert forall|a: int, b: int| 0 <= a < b < d.len() implies d[a].name@ != d[b].name@ by {
                assert(d[a] == v[a] && d[b] == v[b]);
            }
        }
        assert(d[q] == v[q]);
        lemma_values_lookup(d, q);
        assert(v[q].name@ != v.last().name@);
    }
}

/// Rewriting one stored text rewrites that entry of the map.
pub proof fn lemma_values_update(v: Seq<InputValue>, q: int, x: InputValue)
    requires
        names_unique(v),
        0 <= q < v.len(),
        x.name@ == v[q].name@,
    ensures
        values_map(v.update(q, x)) == values_map(v).insert(x.name@, x.value@),
        names_unique(v.update(q, x)),
    decreases v.len(),
{
    let u = v.update(q, x);
    let d = v.drop_last();
    assert(names_unique(d)) by {
        assert forall|a: int, b: int| 0 <= a < b < d.len() implies d[a].name@ != d[b].name@ by {
            assert(d[a] == v[a] && d[b] == v[b]);
        }
    }
    assert forall|a: int, b: int| 0 <= a < b < u.len() implies u[a].name@ != u[b].name@ by {
        assert(v[a].name@ != v[b].name@);
    }
    if q == v.len() - 1 {
        assert(u.drop_last() =~= d);
        assert(values_map(u) =~= values_map(v).insert(x.name@, x.value@));
    } else {
        assert(u.drop_last() =~= d.update(q, x));
        assert(d[q] == v[q]);
        lemma_values_update(d, q, x);
        assert(v.last().name@ != x.name@);
        assert(values_map(u) =~= values_map(v).insert(x.name@, x.value@));
    }
}

impl BlocksForArduino {
    /// The text of input `name` of block `i`, where the block declares it.
    pub fn input_value(&self, i: usize, name: &str) -> (r: Option<String>)
        requires
            self.wf(),
            i < self.sections@.len(),
        ensures
            r is Some <==> self.view_blocks()[i as int].values.contains_key(name@),
            r is Some ==> r->0@ == self.view_blocks()[i as int].values[name@],
    {
        let key = name.to_owned();
        let vals = &self.sections[i].input_values;
        assert(self.sections@[i as int].coords_wf());
        proof {
            lemma_values_map(vals@);
        }
        let mut q: usize = 0;
        while q < vals.len()
            invariant
                q <= vals@.len(),
                key@ == name@,
                self.wf(),
                i < self.sections@.len(),
                vals@ == self.sections@[i as int].input_values@,
                names_unique(vals@),
                forall|k: int| 0 <= k < q ==> vals@[k].name@ != key@,
            decreases vals.len() - q,
        {
            if vals[q].name == key {
                proof {
                    lemma_values_lookup(vals@, q as int);
                }
                return Some(vals[q].value.clone());
            }
            q = q + 1;
        }
        proof {
            lemma_values_map(vals@);
        }
        None
    }

    /// Stores `text` as the value of input `name` of block `i`, where the
    /// block declares that input; reports whether it does. Nothing else
    /// changes.
    pub fn on_input_text_changed(&mut self, i: usize, name: &str, text: String) -> (found: bool)
        requires
            old(self).wf(),
            i < old(self).sections@.len(),
        ensures
            final(self).wf(),
            final(self).was_mouse_down == old(self).was_mouse_down,
            final(self).block_width == old(self).block_width,
            final(self).block_height == old(self).block_height,
            final(self).snap_tolerance == old(self).snap_tolerance,
            found <==> old(self).view_blocks()[i as int].values.contains_key(name@),
            found ==> final(self).view_blocks() == old(self).view_blocks().update(
                i as int,
                BlockView {
                    values: old(self).view_blocks()[i as int].values.insert(name@, text@),
                    ..old(self).view_blocks()[i as int]
                },
            ),
            !found ==> final(self).view_blocks() == old(self).view_blocks(),
    {
        let ghost s = self.view_blocks();
        let key = name.to_owned();
        assert(self.sections@[i as int].coords_wf());
        proof {
            lemma_values_map(self.sections@[i as int].input_values@);
        }
        let n = self.sections[i].input_values.len();
        let mut q: usize = 0;
        while q < n
            invariant
                q <= n,
                n == self.sections@[i as int].input_values@.len(),
                *self == *old(self),
                key@ == name@,
                s == old(self).view_blocks(),
                self.wf(),
                i < self.sections@.len(),
                forall|k: int| 0 <= k < q ==> self.sections@[i as int].input_values@[k].name@ != key@,
            decreases n - q,
        {
            if self.sections[i].input_values[q].name == key {
                let ghost v = self.sections@[i as int].input_values@;
                proof {
                    lemma_values_lookup(v, q as int);
                    lemma_values_update(v, q as int, InputValue { name: v[q as int].name, value: text });
                }
                self.sections[i].input_values[q].value = text;
                assert(self.sections@[i as int].input_values@ =~= v.update(
                    q as int,
                    InputValue { name: v[q as int].name, value: text },
                ));
                assert(self.view_blocks() =~= s.update(
                    i as int,
                    BlockView { values: s[i as int].values.insert(name@, text@), ..s[i as int] },
                ));
                assert(parents(self.view_blocks()) =~= parents(s));
                proof {
                    lemma_same_parents(s, self.view_blocks());
                    let t = self.view_blocks();
                    assert forall|k: int| 0 <= k < t.len() implies t[k].children == s[k].children && t[k].attached_to
                        == s[k].attached_to by {}
                }
                assert forall|k: int| 0 <= k < self.sections@.len() implies (#[trigger] self.sections@[k]).coords_wf()
                    && names_unique(self.sections@[k].input_values@) by {
                    assert(old(self).sections@[k].coords_wf());
                }
                return true;
            }
            q = q + 1;
        }
        assert(self.sections@[i as int].coords_wf());
        proof {
            lemma_values_map(self.sections@[i as int].input_values@);
        }
        false
    }

    /// Spawns a copy of the clicked palette block (see `spawn_code_block`).
    pub fn on_palette_clicked(&mut self, i: usize) -> (idx: usize)
        requires
            old(self).wf(),
            i < old(self).sections@.len(),
            old(self).sections@.len() < usize::MAX,
        ensures
            final(self).wf(),
            final(self).was_mouse_down == old(self).was_mouse_down,
            final(self).block_width == old(self).block_width,
            final(self).block_height == old(self).block_height,
            final(self).snap_tolerance == old(self).snap_tolerance,
            idx == old(self).sections@.len(),
            final(self).view_blocks() == old(self).view_blocks().push(
                fresh_copy(
                    old(self).view_blocks()[i as int],
                    stacked_pos(CANVAS_X, old(self).sections@.len() as int),
                ),
            ),
    {
        self.spawn_code_block(i)
    }

    /// Deletes the block that was secondary-clicked (see `delete_block`).
    pub fn on_secondary_clicked(&mut self, i: usize)
        requires
            old(self).wf(),
            i < old(self).sections@.len(),
        ensures
            final(self).wf(),
            final(self).was_mouse_down == old(self).was_mouse_down,
            final(self).block_width == old(self).block_width,
            final(self).block_height == old(self).block_height,
            final(self).snap_tolerance == old(self).snap_tolerance,
            removed_from(
                final(self).view_blocks(),
                old(self).view_blocks(),
                doomed(old(self).view_blocks(), i as int),
            ),
    {
        self.delete_block(i)
    }
}

/// What one cycle's pointer input on a block asks the engine to do.
#[derive(Clone, Copy, Debug, PartialEq, Eq, Structural)]
pub struct BlockActions {
    pub spawn: bool,
    pub drag: bool,
    pub snap: bool,
    pub delete: bool,
}

/// Decides the actions for one block: a click on a palette block spawns a
/// copy; on a code block a drag moves it, a release over it snaps it, and a
/// secondary click asks for its deletion.
pub fn block_actions(
    is_palette: bool,
    clicked: bool,
    dragged: bool,
    released_over: bool,
    secondary_clicked: bool,
) -> (r: BlockActions)
    ensures
        r.spawn == (clicked && is_palette),
        r.drag == (dragged && !is_palette),
        r.snap == (released_over && !is_palette),
        r.delete == (secondary_clicked && !is_palette),
{
    BlockActions {
        spawn: clicked && is_palette,
        drag: dragged && !is_palette,
        snap: released_over && !is_palette,
        delete: secondary_clicked && !is_palette,
    }
}

} // verus!
