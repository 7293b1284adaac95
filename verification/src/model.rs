//! The tensor-network model: structure (tensors and indices), layout
//! statements, and style rules.
//!
//! A tensor is a list of slots, each holding an index.  An index held by two
//! slots is a bond; an index held by one slot is an open leg.

use vstd::prelude::*;

use crate::error::{Error, error_new};
use crate::name::{
    Name, NamePattern, chars_lt, index_text, name_lt, name_text, pattern_matches, push_index_text,
    same_name,
};
use crate::number::Number;
use crate::text::{chars_of, push_chars, push_str, same_chars, string_copy, string_of};
use crate::value::{Attr, Value, ValueView, attrs_view, merge_into, merge_seq, merge_seq_from};

verus! {

#[derive(Clone, Copy, Debug, PartialEq, Eq, Hash, PartialOrd, Ord, Structural)]
pub struct TensorId(pub usize);

#[derive(Clone, Copy, Debug, PartialEq, Eq, Hash, PartialOrd, Ord, Structural)]
pub struct IndexId(pub usize);

#[derive(Clone, Debug, PartialEq)]
pub struct Index {
    pub name: Name,
    pub prime: u32,
    /// Tags in increasing order, each once.
    pub tags: Vec<String>,
    pub dim: Option<u64>,
    /// The slots holding this index.
    pub holders: Vec<(TensorId, usize)>,
}

impl Index {
    /// The slots holding this index, as the model sees them.
    pub open spec fn holders_view(&self) -> Seq<(TensorId, usize)> {
        self.holders@
    }

    /// The slots holding this index: two for a bond, one for an open leg.
    pub fn holders(&self) -> (r: &[(TensorId, usize)])
        ensures
            r@ == self.holders_view(),
    {
        self.holders.as_slice()
    }

    pub fn is_bond(&self) -> (r: bool)
        ensures
            r == (self.holders_view().len() == 2),
    {
        self.holders.len() == 2
    }

    pub fn is_open(&self) -> (r: bool)
        ensures
            r == (self.holders_view().len() == 1),
    {
        self.holders.len() == 1
    }

    /// Whether the index has a tag.
    pub fn has_tag(&self, tag: &String) -> (r: bool)
        ensures
            r == exists|k: int| 0 <= k < self.tags@.len() && #[trigger] self.tags@[k]@ == tag@,
    {
        let mut k: usize = 0;
        while k < self.tags.len()
            invariant
                k <= self.tags@.len(),
                forall|j: int| 0 <= j < k ==> self.tags@[j]@ != tag@,
            decreases self.tags@.len() - k,
        {
            if crate::text::strings_equal(&self.tags[k], tag) {
                return true;
            }
            k = k + 1;
        }
        false
    }
}

#[derive(Clone, Debug, PartialEq)]
pub struct Slot {
    pub index: IndexId,
    /// An optional name local to the tensor, such as `r` in `A.r`.
    pub label: Option<String>,
}

#[derive(Clone, Debug, PartialEq)]
pub struct Tensor {
    pub name: Name,
    pub slots: Vec<Slot>,
}

#[derive(Clone, Copy, Debug, PartialEq, Eq, Structural)]
pub enum Dim {
    Two,
    Three,
}

impl Default for Dim {
    fn default() -> (d: Dim)
        ensures
            d == Dim::Two,
    {
        Dim::Two
    }
}

#[derive(Clone, Debug, PartialEq)]
pub struct Scene {
    pub dim: Dim,
    /// The `spacing` statement.
    pub spacing: Option<Number>,
    /// An angle in 2D, or a vector in 3D.
    pub light: Option<Vec<Number>>,
    pub camera: Option<Camera>,
}

#[derive(Clone, Debug, PartialEq)]
pub struct Camera {
    /// Azimuth and elevation in degrees.
    pub angles: Option<(Number, Number)>,
    pub attrs: Vec<Attr>,
}

#[derive(Clone, Copy, Debug, PartialEq, Eq, Structural)]
pub enum Relation {
    RightOf,
    LeftOf,
    Above,
    Below,
}

/// A direction: a word such as `down-left`, an angle, a 3D axis such as
/// `+z`, or a vector.
#[derive(Clone, Debug, PartialEq)]
pub enum Direction {
    Word(String),
    Angle(Number),
    Axis(String),
    Vector(Vec<Number>),
}

/// The direction words of the language.
pub open spec fn direction_words() -> Seq<Seq<char>> {
    seq![
        "up"@,
        "down"@,
        "left"@,
        "right"@,
        "up-left"@,
        "up-right"@,
        "down-left"@,
        "down-right"@,
    ]
}

pub open spec fn is_direction_word(w: Seq<char>) -> bool {
    direction_words().contains(w)
}

/// Whether a word is one of the direction words.
pub fn direction_word_known(w: &[char]) -> (r: bool)
    ensures
        r == is_direction_word(w@),
{
    let r = crate::text::str_is("up", w) || crate::text::str_is("down", w) || crate::text::str_is(
        "left",
        w,
    ) || crate::text::str_is("right", w) || crate::text::str_is("up-left", w) || crate::text::str_is(
        "up-right",
        w,
    ) || crate::text::str_is("down-left", w) || crate::text::str_is("down-right", w);
    proof {
        let d = direction_words();
        if r {
            if w@ == "up"@ {
                assert(d[0] == w@);
            } else if w@ == "down"@ {
                assert(d[1] == w@);
            } else if w@ == "left"@ {
                assert(d[2] == w@);
            } else if w@ == "right"@ {
                assert(d[3] == w@);
            } else if w@ == "up-left"@ {
                assert(d[4] == w@);
            } else if w@ == "up-right"@ {
                assert(d[5] == w@);
            } else if w@ == "down-left"@ {
                assert(d[6] == w@);
            } else {
                assert(d[7] == w@);
            }
        }
    }
    r
}

/// The attribute value of a direction.
pub open spec fn direction_value(d: Direction) -> ValueView {
    match d {
        Direction::Word(w) => ValueView::Word(w@),
        Direction::Axis(w) => ValueView::Word(w@),
        Direction::Angle(a) => ValueView::Number(a),
        Direction::Vector(v) => ValueView::Points(seq![v@]),
    }
}

impl Direction {
    /// The direction as an attribute value.
    pub fn to_value(&self) -> (v: Value)
        ensures
            v@ == direction_value(*self),
    {
        match self {
            Direction::Word(w) | Direction::Axis(w) => Value::Word(string_copy(w)),
            Direction::Angle(a) => Value::Number(*a),
            Direction::Vector(v) => {
                let mut pts: Vec<Vec<Number>> = Vec::new();
                pts.push(crate::value::copy_numbers(v));
                assert(pts@.map_values(|q: Vec<Number>| q@) =~= seq![v@]);
                Value::Points(pts)
            },
        }
    }

    /// A copy of the direction.
    pub fn copy(&self) -> (d: Direction)
        ensures
            direction_value(d) == direction_value(*self),
            d is Word <==> self is Word,
            d is Axis <==> self is Axis,
    {
        match self {
            Direction::Word(w) => Direction::Word(string_copy(w)),
            Direction::Axis(w) => Direction::Axis(string_copy(w)),
            Direction::Angle(a) => Direction::Angle(*a),
            Direction::Vector(v) => Direction::Vector(crate::value::copy_numbers(v)),
        }
    }
}

/// A layout statement.
#[derive(Clone, Debug, PartialEq)]
pub enum LayoutStmt {
    At { tensor: TensorId, pos: Vec<Number> },
    Relative { tensor: TensorId, relation: Relation, anchor: TensorId, distance: Option<Number> },
    Row { tensors: Vec<TensorId> },
    Grid { base: String, rows: usize, cols: usize },
    Stack { groups: Vec<String> },
    Tree { root: TensorId, direction: Direction },
}

#[derive(Clone, Debug, PartialEq)]
pub struct Group {
    pub name: String,
    pub members: Vec<TensorId>,
}

/// How a style rule picks a leg of a tensor.
#[derive(Clone, Debug, PartialEq)]
pub enum LegKey {
    Label(String),
    /// 1-based slot position, written `A.#2`.
    Position(usize),
}

#[derive(Clone, Debug, PartialEq)]
pub enum Selector {
    /// `*`
    Tensors,
    /// `-`
    Bonds,
    /// `leg`: every slot.
    Legs,
    /// `leg.open`
    OpenLegs,
    /// `tag:Site`
    Tag(String),
    /// A name pattern; matches groups, tensors, and indices by name.
    Name(NamePattern),
    /// A leg of the tensors matching the pattern, such as `A[*].p`.
    LegOf(NamePattern, LegKey),
    Tensor(TensorId),
    Index(IndexId),
    Slot(TensorId, usize),
}

#[derive(Clone, Debug, PartialEq)]
pub struct Rule {
    pub selector: Selector,
    pub attrs: Vec<Attr>,
}

/// Base names of indices created by the simple syntax.  The leading
/// underscore keeps them apart from hand-written names.
pub open spec fn auto_link() -> Seq<char> {
    "_link"@
}

pub open spec fn auto_site() -> Seq<char> {
    "_site"@
}

/// A tensor network with its layout and style.
#[derive(Clone, Debug, PartialEq)]
pub struct Network {
    scene: Scene,
    tensors: Vec<Tensor>,
    indices: Vec<Index>,
    groups: Vec<Group>,
    layout: Vec<LayoutStmt>,
    rules: Vec<Rule>,
    auto_links: i64,
    auto_sites: i64,
}

/// The position of the first tensor with the name, or -1.
pub open spec fn tensor_pos(ts: Seq<Tensor>, name: Name) -> int
    decreases ts.len(),
{
    if ts.len() == 0 {
        -1
    } else {
        let k = tensor_pos(ts.drop_last(), name);
        if k >= 0 {
            k
        } else if same_name(ts.last().name, name) {
            ts.len() - 1
        } else {
            -1
        }
    }
}

/// The position of the first index with the name and prime level, or -1.
pub open spec fn index_pos(ix: Seq<Index>, name: Name, prime: u32) -> int
    decreases ix.len(),
{
    if ix.len() == 0 {
        -1
    } else {
        let k = index_pos(ix.drop_last(), name, prime);
        if k >= 0 {
            k
        } else if same_name(ix.last().name, name) && ix.last().prime == prime {
            ix.len() - 1
        } else {
            -1
        }
    }
}

pub proof fn lemma_tensor_pos(ts: Seq<Tensor>, name: Name)
    ensures
        -1 <= tensor_pos(ts, name) < ts.len(),
        tensor_pos(ts, name) >= 0 ==> same_name(ts[tensor_pos(ts, name)].name, name),
        tensor_pos(ts, name) < 0 ==> forall|j: int| 0 <= j < ts.len() ==> !same_name(ts[j].name, name),
        tensor_pos(ts, name) >= 0 ==> forall|j: int|
            0 <= j < tensor_pos(ts, name) ==> !same_name(ts[j].name, name),
    decreases ts.len(),
{
    if ts.len() > 0 {
        lemma_tensor_pos(ts.drop_last(), name);
        assert(forall|j: int| 0 <= j < ts.len() - 1 ==> ts.drop_last()[j] == ts[j]);
    }
}

pub proof fn lemma_index_pos(ix: Seq<Index>, name: Name, prime: u32)
    ensures
        -1 <= index_pos(ix, name, prime) < ix.len(),
        index_pos(ix, name, prime) >= 0 ==> same_name(ix[index_pos(ix, name, prime)].name, name)
            && ix[index_pos(ix, name, prime)].prime == prime,
        index_pos(ix, name, prime) < 0 ==> forall|j: int|
            0 <= j < ix.len() ==> !(same_name(ix[j].name, name) && ix[j].prime == prime),
    decreases ix.len(),
{
    if ix.len() > 0 {
        lemma_index_pos(ix.drop_last(), name, prime);
        assert(forall|j: int| 0 <= j < ix.len() - 1 ==> ix.drop_last()[j] == ix[j]);
    }
}

/// The slots of the tensors and the holders of the indices agree: every
/// slot is a holder of its index, every holder is a slot holding the index,
/// and no index has more than two holders.
pub open spec fn links_agree(ts: Seq<Tensor>, ix: Seq<Index>) -> bool {
    &&& forall|t: int, s: int|
        #![trigger ts[t].slots@[s]]
        0 <= t < ts.len() && 0 <= s < ts[t].slots@.len() ==> {
            let i = ts[t].slots@[s].index.0 as int;
            &&& 0 <= i < ix.len()
            &&& ix[i].holders_view().contains((TensorId(t as usize), s as usize))
        }
    &&& forall|i: int, h: int|
        #![trigger ix[i].holders_view()[h]]
        0 <= i < ix.len() && 0 <= h < ix[i].holders_view().len() ==> {
            let (t, s) = ix[i].holders_view()[h];
            &&& t.0 < ts.len()
            &&& s < ts[t.0 as int].slots@.len()
            &&& ts[t.0 as int].slots@[s as int].index.0 == i
        }
    &&& forall|i: int| 0 <= i < ix.len() ==> #[trigger] ix[i].holders_view().len() <= 2
    &&& forall|i: int| 0 <= i < ix.len() ==> (#[trigger] ix[i].holders_view()).no_duplicates()
}

/// Whether a tag comes before some text.
fn tag_less(a: &String, t: &[char]) -> (r: bool)
    ensures
        r == chars_lt(a@, t@),
{
    let c = chars_of(a.as_str());
    match crate::name::compare_chars(c.as_slice(), t) {
        crate::name::Cmp::Less => true,
        _ => false,
    }
}

/// Whether a tag is among the tags.
pub open spec fn tagged(tags: Seq<String>, x: Seq<char>) -> bool {
    exists|k: int| 0 <= k < tags.len() && #[trigger] tags[k]@ == x
}

/// Tags in strictly increasing order.
pub open spec fn tags_sorted(t: Seq<String>) -> bool {
    forall|a: int, b: int| 0 <= a < b < t.len() ==> chars_lt(#[trigger] t[a]@, #[trigger] t[b]@)
}

impl Network {
    pub closed spec fn scene_view(&self) -> Scene {
        self.scene
    }

    pub closed spec fn tensors_view(&self) -> Seq<Tensor> {
        self.tensors@
    }

    pub closed spec fn indices_view(&self) -> Seq<Index> {
        self.indices@
    }

    pub closed spec fn groups_view(&self) -> Seq<Group> {
        self.groups@
    }

    pub closed spec fn layout_view(&self) -> Seq<LayoutStmt> {
        self.layout@
    }

    pub closed spec fn rules_view(&self) -> Seq<Rule> {
        self.rules@
    }

    pub closed spec fn links_made(&self) -> int {
        self.auto_links as int
    }

    pub closed spec fn sites_made(&self) -> int {
        self.auto_sites as int
    }

    /// The network's invariant: names are unique, and slots and holders agree.
    pub closed spec fn wf(&self) -> bool {
        &&& forall|a: int, b: int|
            0 <= a < b < self.tensors@.len() ==> !same_name(self.tensors@[a].name, self.tensors@[b].name)
        &&& forall|a: int, b: int|
            0 <= a < b < self.indices@.len() ==> !(same_name(self.indices@[a].name, self.indices@[b].name)
                && self.indices@[a].prime == self.indices@[b].prime)
        &&& links_agree(self.tensors@, self.indices@)
        &&& forall|i: int| 0 <= i < self.indices@.len() ==> tags_sorted(#[trigger] self.indices@[i].tags@)
        &&& self.auto_links >= 0
        &&& self.auto_sites >= 0
    }

    /// An empty network.
    pub fn new() -> (n: Self)
        ensures
            n.wf(),
            n.tensors_view().len() == 0,
            n.indices_view().len() == 0,
            n.groups_view().len() == 0,
            n.layout_view().len() == 0,
            n.rules_view().len() == 0,
            n.scene_view().dim == Dim::Two,
            n.scene_view().spacing.is_none(),
            n.scene_view().light.is_none(),
            n.scene_view().camera.is_none(),
            n.links_made() == 0,
            n.sites_made() == 0,
    {
        Network {
            scene: Scene { dim: Dim::Two, spacing: None, light: None, camera: None },
            tensors: Vec::new(),
            indices: Vec::new(),
            groups: Vec::new(),
            layout: Vec::new(),
            rules: Vec::new(),
            auto_links: 0,
            auto_sites: 0,
        }
    }

    // ---- Queries ---------------------------------------------------------

    pub fn scene(&self) -> (r: &Scene)
        ensures
            *r == self.scene_view(),
    {
        &self.scene
    }

    pub fn tensors(&self) -> (r: &[Tensor])
        ensures
            r@ == self.tensors_view(),
    {
        self.tensors.as_slice()
    }

    pub fn indices(&self) -> (r: &[Index])
        ensures
            r@ == self.indices_view(),
    {
        self.indices.as_slice()
    }

    pub fn tensor(&self, id: TensorId) -> (r: &Tensor)
        requires
            id.0 < self.tensors_view().len(),
        ensures
            *r == self.tensors_view()[id.0 as int],
    {
        &self.tensors[id.0]
    }

    pub fn index(&self, id: IndexId) -> (r: &Index)
        requires
            id.0 < self.indices_view().len(),
        ensures
            *r == self.indices_view()[id.0 as int],
    {
        &self.indices[id.0]
    }

    pub fn groups(&self) -> (r: &[Group])
        ensures
            r@ == self.groups_view(),
    {
        self.groups.as_slice()
    }

    pub fn layout_statements(&self) -> (r: &[LayoutStmt])
        ensures
            r@ == self.layout_view(),
    {
        self.layout.as_slice()
    }

    pub fn rules(&self) -> (r: &[Rule])
        ensures
            r@ == self.rules_view(),
    {
        self.rules.as_slice()
    }

    pub fn find_tensor(&self, name: &Name) -> (r: Option<TensorId>)
        ensures
            match r {
                Some(id) => tensor_pos(self.tensors_view(), *name) == id.0,
                None => tensor_pos(self.tensors_view(), *name) == -1,
            },
    {
        proof {
            lemma_tensor_pos(self.tensors@, *name);
        }
        let mut k: usize = 0;
        while k < self.tensors.len()
            invariant
                k <= self.tensors@.len(),
                forall|j: int| 0 <= j < k ==> !same_name(self.tensors@[j].name, *name),
                -1 <= tensor_pos(self.tensors@, *name) < self.tensors@.len(),
                tensor_pos(self.tensors@, *name) >= 0 ==> same_name(
                    self.tensors@[tensor_pos(self.tensors@, *name)].name,
                    *name,
                ),
                tensor_pos(self.tensors@, *name) < 0 ==> forall|j: int|
                    0 <= j < self.tensors@.len() ==> !same_name(self.tensors@[j].name, *name),
                tensor_pos(self.tensors@, *name) >= 0 ==> forall|j: int|
                    0 <= j < tensor_pos(self.tensors@, *name) ==> !same_name(self.tensors@[j].name, *name),
            decreases self.tensors@.len() - k,
        {
            if self.tensors[k].name.same(name) {
                return Some(TensorId(k));
            }
            k = k + 1;
        }
        None
    }

    pub fn find_index(&self, name: &Name, prime: u32) -> (r: Option<IndexId>)
        ensures
            match r {
                Some(id) => index_pos(self.indices_view(), *name, prime) == id.0,
                None => index_pos(self.indices_view(), *name, prime) == -1,
            },
    {
        proof {
            lemma_index_pos(self.indices@, *name, prime);
        }
        let mut k: usize = 0;
        while k < self.indices.len()
            invariant
                k <= self.indices@.len(),
                forall|j: int|
                    0 <= j < k ==> !(same_name(self.indices@[j].name, *name) && self.indices@[j].prime
                        == prime),
                -1 <= index_pos(self.indices@, *name, prime) < self.indices@.len(),
                index_pos(self.indices@, *name, prime) >= 0 ==> same_name(
                    self.indices@[index_pos(self.indices@, *name, prime)].name,
                    *name,
                ) && self.indices@[index_pos(self.indices@, *name, prime)].prime == prime,
                index_pos(self.indices@, *name, prime) < 0 ==> forall|j: int|
                    0 <= j < self.indices@.len() ==> !(same_name(self.indices@[j].name, *name)
                        && self.indices@[j].prime == prime),
            decreases self.indices@.len() - k,
        {
            if self.indices[k].name.same(name) && self.indices[k].prime == prime {
                proof {
                    if index_pos(self.indices@, *name, prime) >= 0 && index_pos(
                        self.indices@,
                        *name,
                        prime,
                    ) != k {
                        assert(index_pos(self.indices@, *name, prime) > k);
                        lemma_index_pos_first(self.indices@, *name, prime, k as int);
                    }
                }
                return Some(IndexId(k));
            }
            k = k + 1;
        }
        None
    }
}

/// No `_link` index numbered past the links made so far is held: the next
/// links are free.
#[verifier::opaque]
pub open spec fn links_fresh(n: &Network) -> bool {
    forall|i: int, k: int|
        0 <= i < n.indices_view().len() && n.links_made() < k <= 9223372036854775807 && #[trigger] auto_name_is(
            n.indices_view()[i].name,
            auto_link(),
            k,
        ) && n.indices_view()[i].prime == 0 ==> n.indices_view()[i].holders@.len() == 0
}

/// A step that changes at most the index `ii`, named by the newest link,
/// keeps the next links free.
proof fn lemma_links_fresh_step(before: &Network, after: &Network, ii: int)
    requires
        links_fresh(before),
        before.links_made() <= after.links_made() <= 9223372036854775807,
        0 <= ii < after.indices_view().len(),
        auto_name_is(after.indices_view()[ii].name, auto_link(), after.links_made()),
        forall|j: int|
            0 <= j < after.indices_view().len() && j != ii ==> j < before.indices_view().len()
                && #[trigger] after.indices_view()[j] == before.indices_view()[j],
    ensures
        links_fresh(after),
{
    reveal(links_fresh);
    assert forall|i: int, k: int|
        0 <= i < after.indices_view().len() && after.links_made() < k <= 9223372036854775807 && #[trigger] auto_name_is(
            after.indices_view()[i].name,
            auto_link(),
            k,
        ) && after.indices_view()[i].prime == 0 implies after.indices_view()[i].holders@.len() == 0 by {
        if i == ii {
            assert(after.indices_view()[ii].name.subscripts@[0] == k as i64);
            assert(after.indices_view()[ii].name.subscripts@[0] == after.links_made() as i64);
        } else {
            assert(after.indices_view()[i] == before.indices_view()[i]);
            assert(auto_name_is(before.indices_view()[i].name, auto_link(), k));
        }
    }
}

/// No `_site` index numbered past the legs made so far is held: the next
/// open legs are free.
#[verifier::opaque]
pub open spec fn sites_fresh(n: &Network) -> bool {
    forall|i: int, k: int|
        0 <= i < n.indices_view().len() && n.sites_made() < k <= 9223372036854775807 && #[trigger] auto_name_is(
            n.indices_view()[i].name,
            auto_site(),
            k,
        ) && n.indices_view()[i].prime == 0 ==> n.indices_view()[i].holders@.len() == 0
}

/// A step that changes at most the index `ii`, named by the newest leg,
/// keeps the next legs free.
proof fn lemma_sites_fresh_step(before: &Network, after: &Network, ii: int)
    requires
        sites_fresh(before),
        before.sites_made() <= after.sites_made() <= 9223372036854775807,
        0 <= ii < after.indices_view().len(),
        auto_name_is(after.indices_view()[ii].name, auto_site(), after.sites_made()),
        forall|j: int|
            0 <= j < after.indices_view().len() && j != ii ==> j < before.indices_view().len()
                && #[trigger] after.indices_view()[j] == before.indices_view()[j],
    ensures
        sites_fresh(after),
{
    reveal(sites_fresh);
    assert forall|i: int, k: int|
        0 <= i < after.indices_view().len() && after.sites_made() < k <= 9223372036854775807 && #[trigger] auto_name_is(
            after.indices_view()[i].name,
            auto_site(),
            k,
        ) && after.indices_view()[i].prime == 0 implies after.indices_view()[i].holders@.len() == 0 by {
        if i == ii {
            assert(after.indices_view()[ii].name.subscripts@[0] == k as i64);
            assert(after.indices_view()[ii].name.subscripts@[0] == after.sites_made() as i64);
        } else {
            assert(after.indices_view()[i] == before.indices_view()[i]);
            assert(auto_name_is(before.indices_view()[i].name, auto_site(), k));
        }
    }
}

pub proof fn lemma_sites_fresh_same(a: &Network, b: &Network)
    requires
        a.indices_view() == b.indices_view(),
        a.sites_made() == b.sites_made(),
    ensures
        sites_fresh(a) == sites_fresh(b),
{
    reveal(sites_fresh);
}

pub proof fn lemma_sites_fresh_free(n: &Network)
    requires
        sites_fresh(n),
        n.sites_made() < 9223372036854775807,
    ensures
        auto_free(n.indices_view(), auto_site(), n.sites_made() + 1, 2),
{
    reveal(sites_fresh);
    reveal(auto_free);
    assert forall|i: int|
        0 <= i < n.indices_view().len() && auto_name_is(#[trigger] n.indices_view()[i].name, auto_site(), n.sites_made() + 1)
            && n.indices_view()[i].prime == 0 implies n.indices_view()[i].holders@.len() < 2 by {
        assert(auto_name_is(n.indices_view()[i].name, auto_site(), n.sites_made() + 1));
    }
}

pub proof fn lemma_links_fresh_same(a: &Network, b: &Network)
    requires
        a.indices_view() == b.indices_view(),
        a.links_made() == b.links_made(),
    ensures
        links_fresh(a) == links_fresh(b),
{
    reveal(links_fresh);
}

pub proof fn lemma_links_fresh_free(n: &Network)
    requires
        links_fresh(n),
        n.links_made() < 9223372036854775807,
    ensures
        auto_free(n.indices_view(), auto_link(), n.links_made() + 1, 1),
{
    reveal(links_fresh);
    reveal(auto_free);
    assert forall|i: int|
        0 <= i < n.indices_view().len() && auto_name_is(#[trigger] n.indices_view()[i].name, auto_link(), n.links_made() + 1)
            && n.indices_view()[i].prime == 0 implies n.indices_view()[i].holders@.len() < 1 by {
        assert(auto_name_is(n.indices_view()[i].name, auto_link(), n.links_made() + 1));
    }
}

/// Every index named `base[k]` at prime level 0 has fewer than `limit`
/// holders.
#[verifier::opaque]
pub open spec fn auto_free(ix: Seq<Index>, base: Seq<char>, k: int, limit: nat) -> bool {
    forall|i: int|
        0 <= i < ix.len() && auto_name_is(#[trigger] ix[i].name, base, k) && ix[i].prime == 0 ==> ix[i].holders@.len()
            < limit
}

/// Tensors `old` with slot `s` added to tensor `t`.
pub open spec fn slot_added(old: Seq<Tensor>, new: Seq<Tensor>, t: int, s: Slot) -> bool {
    &&& new.len() == old.len()
    &&& forall|j: int| 0 <= j < old.len() && j != t ==> new[j] == old[j]
    &&& new[t].name == old[t].name
    &&& new[t].slots@ == old[t].slots@.push(s)
}

/// Indices `old` with holder `h` added to index `i`.
pub open spec fn holder_added(old: Seq<Index>, new: Seq<Index>, i: int, h: (TensorId, usize)) -> bool {
    &&& new.len() == old.len()
    &&& forall|j: int| 0 <= j < old.len() && j != i ==> new[j] == old[j]
    &&& new[i].name == old[i].name
    &&& new[i].prime == old[i].prime
    &&& new[i].tags == old[i].tags
    &&& new[i].dim == old[i].dim
    &&& new[i].holders@ == old[i].holders@.push(h)
}

/// Whether a slot has the label.
pub open spec fn labelled(s: Slot, l: Seq<char>) -> bool {
    s.label matches Some(x) && x@ == l
}

/// The position of the first slot with the label, or -1.
pub open spec fn label_pos(slots: Seq<Slot>, l: Seq<char>) -> int
    decreases slots.len(),
{
    if slots.len() == 0 {
        -1
    } else {
        let k = label_pos(slots.drop_last(), l);
        if k >= 0 {
            k
        } else if labelled(slots.last(), l) {
            slots.len() - 1
        } else {
            -1
        }
    }
}

pub proof fn lemma_label_pos(slots: Seq<Slot>, l: Seq<char>)
    ensures
        -1 <= label_pos(slots, l) < slots.len(),
        label_pos(slots, l) >= 0 ==> labelled(slots[label_pos(slots, l)], l),
        label_pos(slots, l) < 0 ==> forall|j: int|
            0 <= j < slots.len() ==> !labelled(#[trigger] slots[j], l),
        label_pos(slots, l) >= 0 ==> forall|j: int|
            0 <= j < label_pos(slots, l) ==> !labelled(#[trigger] slots[j], l),
    decreases slots.len(),
{
    if slots.len() > 0 {
        lemma_label_pos(slots.drop_last(), l);
        assert(forall|j: int| 0 <= j < slots.len() - 1 ==> slots.drop_last()[j] == slots[j]);
    }
}

/// `A already has a leg `r``.
pub open spec fn leg_taken_text(t: Name, l: Seq<char>) -> Seq<char> {
    name_text(t.base@, t.subscripts@) + " already has a leg `"@ + l + "`"@
}

/// `index s[2] already joins two tensors`.
pub open spec fn joins_two_text(i: Index) -> Seq<char> {
    "index "@ + index_text(i.name.base@, i.name.subscripts@, i.prime as nat) + " already joins two tensors"@
}

/// Whether the label of `slot` is `l`.
fn slot_has_label(slot: &Slot, l: &String) -> (r: bool)
    ensures
        r == (slot.label matches Some(x) && x@ == l@),
{
    match &slot.label {
        Some(x) => crate::text::strings_equal(x, l),
        None => false,
    }
}

impl Network {
    /// The tensor with this name, created without slots if missing.
    pub fn tensor_or_create(&mut self, name: &Name) -> (id: TensorId)
        requires
            old(self).wf(),
        ensures
            final(self).wf(),
            final(self).indices_view() == old(self).indices_view(),
            final(self).groups_view() == old(self).groups_view(),
            final(self).layout_view() == old(self).layout_view(),
            final(self).rules_view() == old(self).rules_view(),
            final(self).scene_view() == old(self).scene_view(),
            final(self).links_made() == old(self).links_made(),
            final(self).sites_made() == old(self).sites_made(),
            tensor_pos(old(self).tensors_view(), *name) >= 0 ==> {
                &&& id.0 == tensor_pos(old(self).tensors_view(), *name)
                &&& final(self).tensors_view() == old(self).tensors_view()
            },
            tensor_pos(old(self).tensors_view(), *name) < 0 ==> {
                &&& id.0 == old(self).tensors_view().len()
                &&& final(self).tensors_view().len() == old(self).tensors_view().len() + 1
                &&& final(self).tensors_view().drop_last() == old(self).tensors_view()
                &&& same_name(final(self).tensors_view().last().name, *name)
                &&& final(self).tensors_view().last().slots@.len() == 0
            },
            id.0 < final(self).tensors_view().len(),
            same_name(final(self).tensors_view()[id.0 as int].name, *name),
    {
        if let Some(id) = self.find_tensor(name) {
            proof {
                lemma_tensor_pos(self.tensors@, *name);
            }
            return id;
        }
        proof {
            lemma_tensor_pos(self.tensors@, *name);
        }
        let id = TensorId(self.tensors.len());
        let ghost before = self.tensors@;
        self.tensors.push(Tensor { name: name.copy(), slots: Vec::new() });
        assert(self.tensors@.drop_last() =~= before);
        proof {
            assert forall|a: int, b: int|
                0 <= a < b < self.tensors@.len() implies !same_name(
                self.tensors@[a].name,
                self.tensors@[b].name,
            ) by {
                if b == before.len() {
                    assert(!same_name(before[a].name, *name));
                } else {
                    assert(self.tensors@[a] == before[a]);
                    assert(self.tensors@[b] == before[b]);
                }
            }
            let ts = self.tensors@;
            let ix = self.indices@;
            assert forall|t: int, s: int|
                #![trigger ts[t].slots@[s]]
                0 <= t < ts.len() && 0 <= s < ts[t].slots@.len() implies {
                let i = ts[t].slots@[s].index.0 as int;
                &&& 0 <= i < ix.len()
                &&& ix[i].holders_view().contains((TensorId(t as usize), s as usize))
            } by {
                assert(t < before.len());
                assert(ts[t] == before[t]);
            }
            assert forall|i: int, h: int|
                #![trigger ix[i].holders_view()[h]]
                0 <= i < ix.len() && 0 <= h < ix[i].holders_view().len() implies {
                let (t, s) = ix[i].holders_view()[h];
                &&& t.0 < ts.len()
                &&& s < ts[t.0 as int].slots@.len()
                &&& ts[t.0 as int].slots@[s as int].index.0 == i
            } by {
                let (t, s) = ix[i].holders_view()[h];
                assert(ts[t.0 as int] == before[t.0 as int]);
            }
        }
        id
    }

    /// The index with this name and prime level, created if missing.
    #[verifier::spinoff_prover]
    pub fn index_or_create(&mut self, name: &Name, prime: u32) -> (id: IndexId)
        requires
            old(self).wf(),
        ensures
            final(self).wf(),
            final(self).tensors_view() == old(self).tensors_view(),
            final(self).groups_view() == old(self).groups_view(),
            final(self).layout_view() == old(self).layout_view(),
            final(self).rules_view() == old(self).rules_view(),
            final(self).scene_view() == old(self).scene_view(),
            final(self).links_made() == old(self).links_made(),
            final(self).sites_made() == old(self).sites_made(),
            index_pos(old(self).indices_view(), *name, prime) >= 0 ==> {
                &&& id.0 == index_pos(old(self).indices_view(), *name, prime)
                &&& final(self).indices_view() == old(self).indices_view()
            },
            index_pos(old(self).indices_view(), *name, prime) < 0 ==> {
                &&& id.0 == old(self).indices_view().len()
                &&& final(self).indices_view().len() == old(self).indices_view().len() + 1
                &&& final(self).indices_view().drop_last() == old(self).indices_view()
                &&& same_name(final(self).indices_view().last().name, *name)
                &&& final(self).indices_view().last().prime == prime
                &&& final(self).indices_view().last().tags@.len() == 0
                &&& final(self).indices_view().last().dim.is_none()
                &&& final(self).indices_view().last().holders@.len() == 0
            },
            id.0 < final(self).indices_view().len(),
            same_name(final(self).indices_view()[id.0 as int].name, *name),
            final(self).indices_view()[id.0 as int].prime == prime,
    {
        if let Some(id) = self.find_index(name, prime) {
            proof {
                lemma_index_pos(self.indices@, *name, prime);
            }
            return id;
        }
        proof {
            lemma_index_pos(self.indices@, *name, prime);
        }
        let id = IndexId(self.indices.len());
        let ghost before = self.indices@;
        self.indices.push(
            Index { name: name.copy(), prime, tags: Vec::new(), dim: None, holders: Vec::new() },
        );
        assert(self.indices@.drop_last() =~= before);
        proof {
            assert forall|a: int, b: int|
                0 <= a < b < self.indices@.len() implies !(same_name(
                self.indices@[a].name,
                self.indices@[b].name,
            ) && self.indices@[a].prime == self.indices@[b].prime) by {
                if b == before.len() {
                    assert(!(same_name(before[a].name, *name) && before[a].prime == prime));
                } else {
                    assert(self.indices@[a] == before[a]);
                    assert(self.indices@[b] == before[b]);
                }
            }
            let ts = self.tensors@;
            let ix = self.indices@;
            assert forall|t: int, s: int|
                #![trigger ts[t].slots@[s]]
                0 <= t < ts.len() && 0 <= s < ts[t].slots@.len() implies {
                let i = ts[t].slots@[s].index.0 as int;
                &&& 0 <= i < ix.len()
                &&& ix[i].holders_view().contains((TensorId(t as usize), s as usize))
            } by {
                let i = ts[t].slots@[s].index.0 as int;
                assert(ix[i] == before[i]);
            }
            assert forall|i: int, h: int|
                #![trigger ix[i].holders_view()[h]]
                0 <= i < ix.len() && 0 <= h < ix[i].holders_view().len() implies {
                let (t, s) = ix[i].holders_view()[h];
                &&& t.0 < ts.len()
                &&& s < ts[t.0 as int].slots@.len()
                &&& ts[t.0 as int].slots@[s as int].index.0 == i
            } by {
                assert(i < before.len());
                assert(ix[i] == before[i]);
            }
            assert forall|i: int| 0 <= i < ix.len() implies #[trigger] ix[i].holders_view().len() <= 2 by {
                if i < before.len() {
                    assert(ix[i] == before[i]);
                }
            }
            assert forall|i: int| 0 <= i < ix.len() implies (#[trigger] ix[i].holders_view()).no_duplicates() by {
                if i < before.len() {
                    assert(ix[i] == before[i]);
                }
            }
        }
        id
    }

    /// The slot of `tensor` with the label, if any.
    pub fn slot_by_label(&self, tensor: TensorId, label: &String) -> (r: Option<usize>)
        requires
            tensor.0 < self.tensors_view().len(),
        ensures
            match r {
                Some(s) => label_pos(self.tensors_view()[tensor.0 as int].slots@, label@) == s,
                None => label_pos(self.tensors_view()[tensor.0 as int].slots@, label@) == -1,
            },
            r matches Some(s) ==> s < self.tensors_view()[tensor.0 as int].slots@.len(),
    {
        let slots = &self.tensors[tensor.0].slots;
        assert(slots@ == self.tensors@[tensor.0 as int].slots@);
        proof {
            lemma_label_pos(slots@, label@);
        }
        let mut k: usize = 0;
        while k < slots.len()
            invariant
                k <= slots@.len(),
                tensor.0 < self.tensors@.len(),
                slots@ == self.tensors@[tensor.0 as int].slots@,
                forall|j: int| 0 <= j < k ==> !labelled(#[trigger] slots@[j], label@),
                -1 <= label_pos(slots@, label@) < slots@.len(),
                label_pos(slots@, label@) >= 0 ==> labelled(slots@[label_pos(slots@, label@)], label@),
                label_pos(slots@, label@) < 0 ==> forall|j: int|
                    0 <= j < slots@.len() ==> !labelled(#[trigger] slots@[j], label@),
                label_pos(slots@, label@) >= 0 ==> forall|j: int|
                    0 <= j < label_pos(slots@, label@) ==> !labelled(#[trigger] slots@[j], label@),
            decreases slots@.len() - k,
        {
            if slot_has_label(&slots[k], label) {
                assert(labelled(slots@[k as int], label@));
                return Some(k);
            }
            k = k + 1;
        }
        None
    }

    /// Give `tensor` a slot holding `index`.
    pub fn attach(&mut self, tensor: TensorId, index: IndexId, label: Option<String>) -> (r: Result<
        usize,
        Error,
    >)
        requires
            old(self).wf(),
            tensor.0 < old(self).tensors_view().len(),
            index.0 < old(self).indices_view().len(),
        ensures
            final(self).wf(),
            final(self).groups_view() == old(self).groups_view(),
            final(self).layout_view() == old(self).layout_view(),
            final(self).rules_view() == old(self).rules_view(),
            final(self).scene_view() == old(self).scene_view(),
            final(self).links_made() == old(self).links_made(),
            final(self).sites_made() == old(self).sites_made(),
            ({
                let t = old(self).tensors_view()[tensor.0 as int];
                let i = old(self).indices_view()[index.0 as int];
                let taken = label matches Some(l) && label_pos(t.slots@, l@) >= 0;
                match r {
                    Ok(s) => {
                        &&& !taken
                        &&& i.holders@.len() < 2
                        &&& s == t.slots@.len()
                        &&& slot_added(
                            old(self).tensors_view(),
                            final(self).tensors_view(),
                            tensor.0 as int,
                            Slot { index, label },
                        )
                        &&& holder_added(
                            old(self).indices_view(),
                            final(self).indices_view(),
                            index.0 as int,
                            (tensor, s),
                        )
                    },
                    Err(e) => {
                        &&& e.pos.is_none()
                        &&& final(self).tensors_view() == old(self).tensors_view()
                        &&& final(self).indices_view() == old(self).indices_view()
                        &&& (taken ==> e.message@ == leg_taken_text(t.name, label->Some_0@))
                        &&& (!taken ==> i.holders@.len() >= 2 && e.message@ == joins_two_text(i))
                    },
                }
            }),
    {
        if let Some(l) = &label {
            if let Some(_) = self.slot_by_label(tensor, l) {
                let mut m: Vec<char> = Vec::new();
                self.tensors[tensor.0].name.push_text(&mut m);
                push_str(&mut m, " already has a leg `");
                let lc = chars_of(l.as_str());
                push_chars(&mut m, lc.as_slice());
                push_str(&mut m, "`");
                return Err(error_new(m.as_slice()));
            }
        }
        if self.indices[index.0].holders.len() >= 2 {
            let mut m: Vec<char> = Vec::new();
            push_str(&mut m, "index ");
            push_index_text(&mut m, &self.indices[index.0].name, self.indices[index.0].prime);
            push_str(&mut m, " already joins two tensors");
            return Err(error_new(m.as_slice()));
        }
        let ghost ts0 = self.tensors@;
        let ghost ix0 = self.indices@;
        let slot = self.tensors[tensor.0].slots.len();
        let mut t = self.tensors.remove(tensor.0);
        t.slots.push(Slot { index, label });
        self.tensors.insert(tensor.0, t);
        let mut i = self.indices.remove(index.0);
        i.holders.push((tensor, slot));
        self.indices.insert(index.0, i);
        proof {
            let ts = self.tensors@;
            let ix = self.indices@;
            let tt = tensor.0 as int;
            let ii = index.0 as int;
            assert(ts =~= ts0.update(tt, ts[tt]));
            assert(ix =~= ix0.update(ii, ix[ii]));
            assert forall|a: int, b: int|
                0 <= a < b < ts.len() implies !same_name(ts[a].name, ts[b].name) by {
                assert(ts[a].name == ts0[a].name);
                assert(ts[b].name == ts0[b].name);
            }
            assert forall|a: int, b: int|
                0 <= a < b < ix.len() implies !(same_name(ix[a].name, ix[b].name) && ix[a].prime
                == ix[b].prime) by {
                assert(ix[a].name == ix0[a].name);
                assert(ix[b].name == ix0[b].name);
            }
            assert forall|t: int, s: int|
                #![trigger ts[t].slots@[s]]
                0 <= t < ts.len() && 0 <= s < ts[t].slots@.len() implies {
                let i = ts[t].slots@[s].index.0 as int;
                &&& 0 <= i < ix.len()
                &&& ix[i].holders_view().contains((TensorId(t as usize), s as usize))
            } by {
                if t == tt && s == slot {
                    assert(ix[ii].holders@.last() == (tensor, slot));
                } else {
                    assert(ts[t].slots@[s] == ts0[t].slots@[s]);
                    let i = ts0[t].slots@[s].index.0 as int;
                    assert(ix0[i].holders_view().contains((TensorId(t as usize), s as usize)));
                    let w = choose|w: int|
                        0 <= w < ix0[i].holders_view().len() && ix0[i].holders_view()[w] == (
                            TensorId(t as usize),
                            s as usize,
                        );
                    assert(ix[i].holders_view()[w] == (TensorId(t as usize), s as usize));
                }
            }
            assert forall|i: int, h: int|
                #![trigger ix[i].holders_view()[h]]
                0 <= i < ix.len() && 0 <= h < ix[i].holders_view().len() implies {
                let (t, s) = ix[i].holders_view()[h];
                &&& t.0 < ts.len()
                &&& s < ts[t.0 as int].slots@.len()
                &&& ts[t.0 as int].slots@[s as int].index.0 == i
            } by {
                if i == ii && h == ix0[ii].holders@.len() {
                } else {
                    assert(ix[i].holders_view()[h] == ix0[i].holders_view()[h]);
                    let (t, s) = ix0[i].holders_view()[h];
                    assert(ts[t.0 as int].slots@[s as int] == ts0[t.0 as int].slots@[s as int]);
                }
            }
            assert forall|i: int| 0 <= i < ix.len() implies #[trigger] ix[i].holders_view().len() <= 2 by {
                if i != ii {
                    assert(ix[i] == ix0[i]);
                }
            }
            assert forall|i: int| 0 <= i < ix.len() implies tags_sorted(#[trigger] ix[i].tags@) by {
                assert(ix[i].tags == ix0[i].tags);
            }
            assert forall|i: int| 0 <= i < ix.len() implies (#[trigger] ix[i].holders_view()).no_duplicates() by {
                if i != ii {
                    assert(ix[i] == ix0[i]);
                } else {
                    // The new holder's slot did not exist before, so no holder named it.
                    assert forall|h: int| 0 <= h < ix0[ii].holders@.len() implies ix0[ii].holders@[h]
                        != (tensor, slot) by {
                        let (t, s) = ix0[ii].holders_view()[h];
                        assert(s < ts0[t.0 as int].slots@.len());
                    }
                    let hs = ix[ii].holders@;
                    assert forall|p: int, q: int|
                        0 <= p < hs.len() && 0 <= q < hs.len() && p != q implies hs[p] != hs[q] by {
                        if p < hs.len() - 1 && q < hs.len() - 1 {
                            assert(ix0[ii].holders@.no_duplicates());
                        }
                    }
                }
            }
        }
        Ok(slot)
    }
}

/// Whether an index joins tensors `a` and `b`.
pub open spec fn joins(ix: Index, a: TensorId, b: TensorId) -> bool {
    &&& ix.holders@.len() == 2
    &&& ((ix.holders@[0].0 == a && ix.holders@[1].0 == b) || (ix.holders@[0].0 == b && ix.holders@[1].0
        == a))
}

/// The first slot of `a`, in slot order, whose index joins `a` and `b`; -1
/// when there is none.
pub open spec fn bond_slot(slots: Seq<Slot>, ix: Seq<Index>, a: TensorId, b: TensorId) -> int
    decreases slots.len(),
{
    if slots.len() == 0 {
        -1
    } else {
        let k = bond_slot(slots.drop_last(), ix, a, b);
        if k >= 0 {
            k
        } else if joins(ix[slots.last().index.0 as int], a, b) {
            slots.len() - 1
        } else {
            -1
        }
    }
}

/// The first slot whose index joins `a` and `b` is `s` when none before it
/// does and it does.
proof fn lemma_bond_slot_is(slots: Seq<Slot>, ix: Seq<Index>, a: TensorId, b: TensorId, s: int)
    requires
        0 <= s < slots.len(),
        forall|k: int| 0 <= k < s ==> !joins(ix[#[trigger] slots[k].index.0 as int], a, b),
        joins(ix[slots[s].index.0 as int], a, b),
    ensures
        bond_slot(slots, ix, a, b) == s,
    decreases slots.len(),
{
    if s < slots.len() - 1 {
        let d = slots.drop_last();
        assert forall|k: int| 0 <= k < s implies !joins(ix[#[trigger] d[k].index.0 as int], a, b) by {
            assert(d[k] == slots[k]);
        }
        assert(d[s] == slots[s]);
        lemma_bond_slot_is(d, ix, a, b, s);
    } else {
        let d = slots.drop_last();
        lemma_bond_slot(d, ix, a, b);
        if bond_slot(d, ix, a, b) >= 0 {
            let k = bond_slot(d, ix, a, b);
            assert(d[k] == slots[k]);
        }
    }
}

/// Where no bond joins `a` and `b`, none joins `b` and `a` either: a bond
/// has one slot on each.
proof fn lemma_no_bond_either_way(n: &Network, a: TensorId, b: TensorId)
    requires
        n.wf(),
        a.0 < n.tensors_view().len(),
        b.0 < n.tensors_view().len(),
        bond_slot(n.tensors_view()[a.0 as int].slots@, n.indices_view(), a, b) < 0,
    ensures
        forall|k: int|
            0 <= k < n.tensors_view()[b.0 as int].slots@.len() ==> !joins(
                n.indices_view()[#[trigger] n.tensors_view()[b.0 as int].slots@[k].index.0 as int],
                b,
                a,
            ),
{
    let ts = n.tensors_view();
    let ix = n.indices_view();
    lemma_bond_slot(ts[a.0 as int].slots@, ix, a, b);
    assert forall|k: int| 0 <= k < ts[b.0 as int].slots@.len() implies !joins(
        ix[#[trigger] ts[b.0 as int].slots@[k].index.0 as int],
        b,
        a,
    ) by {
        let x = ts[b.0 as int].slots@[k].index.0 as int;
        if joins(ix[x], b, a) {
            assert(0 <= x < ix.len());
            let h = if ix[x].holders@[0].0 == a { 0int } else { 1int };
            assert(ix[x].holders_view()[h] == ix[x].holders@[h]);
            let (t, sa) = ix[x].holders_view()[h];
            assert(ts[a.0 as int].slots@[sa as int].index.0 == x);
            assert(joins(ix[ts[a.0 as int].slots@[sa as int].index.0 as int], a, b));
        }
    }
}

/// After a new index `i` joins `a` and `b`, where no bond joined them, it is
/// the bond found between them in either order.
proof fn lemma_new_bond_found(n0: &Network, n3: &Network, n5: &Network, a: TensorId, b: TensorId, i: IndexId)
    requires
        n0.wf(),
        n3.wf(),
        a.0 < n0.tensors_view().len(),
        b.0 < n0.tensors_view().len(),
        bond_slot(n0.tensors_view()[a.0 as int].slots@, n0.indices_view(), a, b) < 0,
        n3.tensors_view() == n0.tensors_view(),
        i.0 < n3.indices_view().len(),
        n3.indices_view()[i.0 as int].holders@.len() == 0,
        i.0 < n5.indices_view().len(),
        joins(n5.indices_view()[i.0 as int], a, b),
        forall|j: int| 0 <= j < n0.indices_view().len() && j != i.0 ==> #[trigger] n5.indices_view()[j] == n0.indices_view()[j],
        n5.tensors_view()[a.0 as int].slots@.len() > n0.tensors_view()[a.0 as int].slots@.len(),
        n5.tensors_view()[a.0 as int].slots@.take(n0.tensors_view()[a.0 as int].slots@.len() as int)
            == n0.tensors_view()[a.0 as int].slots@,
        n5.tensors_view()[a.0 as int].slots@[n0.tensors_view()[a.0 as int].slots@.len() as int].index == i,
        n5.tensors_view()[b.0 as int].slots@.len() > n0.tensors_view()[b.0 as int].slots@.len(),
        n5.tensors_view()[b.0 as int].slots@.take(n0.tensors_view()[b.0 as int].slots@.len() as int)
            == n0.tensors_view()[b.0 as int].slots@,
        n5.tensors_view()[b.0 as int].slots@[n0.tensors_view()[b.0 as int].slots@.len() as int].index == i,
    ensures
        bond_between_spec(n5.tensors_view(), n5.indices_view(), a, b) == Some(i),
        bond_between_spec(n5.tensors_view(), n5.indices_view(), b, a) == Some(i),
{
    let t0 = n0.tensors_view();
    let ix0 = n0.indices_view();
    let ix5 = n5.indices_view();
    lemma_bond_slot(t0[a.0 as int].slots@, ix0, a, b);
    lemma_no_bond_either_way(n0, a, b);
    // No old slot holds `i`: it had no holders.
    assert forall|t: TensorId, k: int| t.0 < t0.len() && 0 <= k < t0[t.0 as int].slots@.len() implies #[trigger] t0[t.0 as int].slots@[k].index != i by {
        if t0[t.0 as int].slots@[k].index == i {
            let tt = t.0 as int;
            assert(n3.tensors@[tt].slots@[k] == t0[tt].slots@[k]);
            assert(n3.indices@[i.0 as int].holders_view().contains((TensorId(tt as usize), k as usize)));
        }
    }
    let sa = t0[a.0 as int].slots@;
    let na = n5.tensors_view()[a.0 as int].slots@;
    assert forall|k: int| 0 <= k < sa.len() implies !joins(ix5[#[trigger] na[k].index.0 as int], a, b) by {
        assert(na[k] == na.take(sa.len() as int)[k]);
        assert(na[k] == sa[k]);
        assert(sa[k].index != i);
        assert(!joins(ix0[sa[k].index.0 as int], a, b));
    }
    lemma_bond_slot_is(na, ix5, a, b, sa.len() as int);
    let sb = t0[b.0 as int].slots@;
    let nb = n5.tensors_view()[b.0 as int].slots@;
    assert forall|k: int| 0 <= k < sb.len() implies !joins(ix5[#[trigger] nb[k].index.0 as int], b, a) by {
        assert(nb[k] == nb.take(sb.len() as int)[k]);
        assert(nb[k] == sb[k]);
        assert(sb[k].index != i);
        assert(!joins(ix0[sb[k].index.0 as int], b, a));
    }
    lemma_bond_slot_is(nb, ix5, b, a, sb.len() as int);
}

/// The steps of an unlabelled connect, where no bond joined `a` and `b`:
/// a fresh index `i` with no holders, then a slot holding it on `a`, then
/// one on `b`. Afterwards `i` is the bond found between them either way.
proof fn lemma_connect_found(
    n0: &Network,
    n3: &Network,
    n4: &Network,
    n5: &Network,
    a: TensorId,
    b: TensorId,
    i: IndexId,
    sa: usize,
    sb: usize,
)
    requires
        n0.wf(),
        n3.wf(),
        a.0 < n0.tensors_view().len(),
        b.0 < n0.tensors_view().len(),
        bond_slot(n0.tensors_view()[a.0 as int].slots@, n0.indices_view(), a, b) < 0,
        n3.tensors_view() == n0.tensors_view(),
        n0.indices_view().len() <= n3.indices_view().len(),
        i.0 < n3.indices_view().len(),
        forall|j: int| 0 <= j < n0.indices_view().len() && j != i.0 ==> #[trigger] n3.indices_view()[j] == n0.indices_view()[j],
        slot_added(n3.tensors_view(), n4.tensors_view(), a.0 as int, Slot { index: i, label: None }),
        holder_added(n3.indices_view(), n4.indices_view(), i.0 as int, (a, sa)),
        sa == n3.tensors_view()[a.0 as int].slots@.len(),
        slot_added(n4.tensors_view(), n5.tensors_view(), b.0 as int, Slot { index: i, label: None }),
        holder_added(n4.indices_view(), n5.indices_view(), i.0 as int, (b, sb)),
        sb == n4.tensors_view()[b.0 as int].slots@.len(),
        n4.indices_view()[i.0 as int].holders@.len() < 2,
    ensures
        bond_between_spec(n5.tensors_view(), n5.indices_view(), a, b) == Some(i),
        bond_between_spec(n5.tensors_view(), n5.indices_view(), b, a) == Some(i),
{
    let ii = i.0 as int;
    assert(n3.indices_view()[ii].holders@.len() == 0);
    assert forall|j: int| 0 <= j < n0.indices_view().len() && j != ii implies #[trigger] n5.indices_view()[j]
        == n0.indices_view()[j] by {
        assert(n3.indices_view()[j] == n0.indices_view()[j]);
        assert(n4.indices_view()[j] == n3.indices_view()[j]);
    }
    let sa0 = n0.tensors_view()[a.0 as int].slots@;
    let sb0 = n0.tensors_view()[b.0 as int].slots@;
    assert(n5.tensors_view()[a.0 as int].slots@.take(sa0.len() as int) =~= sa0);
    assert(n5.tensors_view()[b.0 as int].slots@.take(sb0.len() as int) =~= sb0);
    assert(n5.tensors_view()[a.0 as int].slots@[sa0.len() as int].index == i);
    assert(n5.tensors_view()[b.0 as int].slots@[sb0.len() as int].index == i);
    assert(joins(n5.indices_view()[ii], a, b)) by {
        assert(n5.indices_view()[ii].holders@ =~= seq![(a, sa), (b, sb)]);
    }
    lemma_new_bond_found(n0, n3, n5, a, b, i);
}

proof fn lemma_bond_slot(slots: Seq<Slot>, ix: Seq<Index>, a: TensorId, b: TensorId)
    ensures
        -1 <= bond_slot(slots, ix, a, b) < slots.len(),
        bond_slot(slots, ix, a, b) >= 0 ==> joins(ix[slots[bond_slot(slots, ix, a, b)].index.0 as int], a, b),
        bond_slot(slots, ix, a, b) < 0 ==> forall|j: int|
            0 <= j < slots.len() ==> !joins(ix[#[trigger] slots[j].index.0 as int], a, b),
        bond_slot(slots, ix, a, b) >= 0 ==> forall|j: int|
            0 <= j < bond_slot(slots, ix, a, b) ==> !joins(ix[#[trigger] slots[j].index.0 as int], a, b),
    decreases slots.len(),
{
    if slots.len() > 0 {
        let d = slots.drop_last();
        lemma_bond_slot(d, ix, a, b);
        assert forall|j: int| 0 <= j < slots.len() - 1 implies #[trigger] slots[j] == d[j] by {}
        let k = bond_slot(slots, ix, a, b);
        if k < 0 {
            assert forall|j: int| 0 <= j < slots.len() implies !joins(ix[#[trigger] slots[j].index.0 as int], a, b) by {
                if j < slots.len() - 1 {
                    assert(slots[j] == d[j]);
                }
            }
        } else {
            assert forall|j: int| 0 <= j < k implies !joins(ix[#[trigger] slots[j].index.0 as int], a, b) by {
                assert(slots[j] == d[j]);
            }
        }
    }
}

/// The existing bond between two tensors, if any: the index of the first
/// slot of `a` that joins `a` and `b`.
pub open spec fn bond_between_spec(ts: Seq<Tensor>, ix: Seq<Index>, a: TensorId, b: TensorId) -> Option<
    IndexId,
> {
    let k = bond_slot(ts[a.0 as int].slots@, ix, a, b);
    if k >= 0 {
        Some(ts[a.0 as int].slots@[k].index)
    } else {
        None
    }
}

/// The parts of two networks other than tensors and indices are equal.
pub open spec fn same_extras(a: &Network, b: &Network) -> bool {
    &&& a.groups_view() == b.groups_view()
    &&& a.layout_view() == b.layout_view()
    &&& a.rules_view() == b.rules_view()
    &&& a.scene_view() == b.scene_view()
}

/// Every tensor and index of `a` is in `b`, with its name, and with its
/// slots as a prefix of the slots in `b`.
pub open spec fn grows(a: &Network, b: &Network) -> bool {
    &&& a.tensors_view().len() <= b.tensors_view().len()
    &&& a.indices_view().len() <= b.indices_view().len()
    &&& forall|t: int|
        0 <= t < a.tensors_view().len() ==> {
            &&& (#[trigger] b.tensors_view()[t]).name == a.tensors_view()[t].name
            &&& a.tensors_view()[t].slots@.len() <= b.tensors_view()[t].slots@.len()
            &&& forall|s: int|
                0 <= s < a.tensors_view()[t].slots@.len() ==> #[trigger] b.tensors_view()[t].slots@[s]
                    == a.tensors_view()[t].slots@[s]
        }
    &&& forall|i: int|
        0 <= i < a.indices_view().len() ==> {
            &&& (#[trigger] b.indices_view()[i]).name == a.indices_view()[i].name
            &&& b.indices_view()[i].prime == a.indices_view()[i].prime
        }
}

pub proof fn lemma_grows_trans(a: &Network, b: &Network, c: &Network)
    requires
        grows(a, b),
        grows(b, c),
    ensures
        grows(a, c),
{
    assert forall|t: int| 0 <= t < a.tensors_view().len() implies {
        &&& (#[trigger] c.tensors_view()[t]).name == a.tensors_view()[t].name
        &&& a.tensors_view()[t].slots@.len() <= c.tensors_view()[t].slots@.len()
        &&& forall|s: int|
            0 <= s < a.tensors_view()[t].slots@.len() ==> #[trigger] c.tensors_view()[t].slots@[s]
                == a.tensors_view()[t].slots@[s]
    } by {
        assert(b.tensors_view()[t].name == a.tensors_view()[t].name);
        assert forall|s: int| 0 <= s < a.tensors_view()[t].slots@.len() implies #[trigger] c.tensors_view()[
            t].slots@[s] == a.tensors_view()[t].slots@[s] by {
            assert(b.tensors_view()[t].slots@[s] == a.tensors_view()[t].slots@[s]);
        }
    }
    assert forall|i: int| 0 <= i < a.indices_view().len() implies {
        &&& (#[trigger] c.indices_view()[i]).name == a.indices_view()[i].name
        &&& c.indices_view()[i].prime == a.indices_view()[i].prime
    } by {
        assert(b.indices_view()[i].name == a.indices_view()[i].name);
    }
}

pub proof fn lemma_grows_refl(a: &Network)
    ensures
        grows(a, a),
{
}

/// The `_link[n]` or `_site[n]` name.
pub open spec fn auto_name_is(n: Name, base: Seq<char>, k: int) -> bool {
    n.base@ == base && n.subscripts@ == seq![k as i64]
}

impl Network {
    /// The index of a slot is an index of the network, and the slot holds it.
    pub proof fn lemma_slot_index(&self, t: TensorId, s: int)
        requires
            self.wf(),
            t.0 < self.tensors_view().len(),
            0 <= s < self.tensors_view()[t.0 as int].slots@.len(),
        ensures
            self.tensors_view()[t.0 as int].slots@[s].index.0 < self.indices_view().len(),
            self.indices_view()[self.tensors_view()[t.0 as int].slots@[s].index.0 as int].holders@.contains(
                (t, s as usize),
            ),
    {
        let ts = self.tensors@;
        assert(ts[t.0 as int].slots@[s] == ts[t.0 as int].slots@[s]);
        assert(TensorId(t.0 as int as usize) == t);
    }

    /// A holder of an index is a slot of a tensor of the network, and the
    /// slot holds the index.
    pub proof fn lemma_holder(&self, i: IndexId, h: int)
        requires
            self.wf(),
            i.0 < self.indices_view().len(),
            0 <= h < self.indices_view()[i.0 as int].holders_view().len(),
        ensures
            ({
                let (t, s) = self.indices_view()[i.0 as int].holders_view()[h];
                &&& t.0 < self.tensors_view().len()
                &&& s < self.tensors_view()[t.0 as int].slots@.len()
                &&& self.tensors_view()[t.0 as int].slots@[s as int].index == i
            }),
    {
        let ix = self.indices@;
        assert(ix[i.0 as int].holders_view()[h] == ix[i.0 as int].holders_view()[h]);
    }

    /// Add a tag to an index; tags stay in increasing order, each once.
    #[verifier::spinoff_prover]
    pub fn add_tag(&mut self, id: IndexId, tag: &str)
        requires
            old(self).wf(),
            id.0 < old(self).indices_view().len(),
        ensures
            final(self).wf(),
            same_extras(old(self), final(self)),
            grows(old(self), final(self)),
            final(self).tensors_view() == old(self).tensors_view(),
            final(self).indices_view().len() == old(self).indices_view().len(),
            final(self).links_made() == old(self).links_made(),
            final(self).sites_made() == old(self).sites_made(),
            forall|j: int|
                0 <= j < old(self).indices_view().len() && j != id.0 ==> final(self).indices_view()[j]
                    == old(self).indices_view()[j],
            final(self).indices_view()[id.0 as int].holders == old(self).indices_view()[id.0 as int].holders,
            final(self).indices_view()[id.0 as int].dim == old(self).indices_view()[id.0 as int].dim,
            forall|x: Seq<char>|
                #[trigger] tagged(final(self).indices_view()[id.0 as int].tags@, x) <==> (x == tag@
                    || tagged(old(self).indices_view()[id.0 as int].tags@, x)),
    {
        let t = chars_of(tag);
        let ghost ix0 = self.indices@;
        let mut index = self.indices.remove(id.0);
        let ghost tags0 = index.tags@;
        assert(tags_sorted(tags0));
        let mut p: usize = 0;
        while p < index.tags.len() && tag_less(&index.tags[p], t.as_slice())
            invariant
                p <= tags0.len(),
                index.tags@ == tags0,
                t@ == tag@,
                tags_sorted(tags0),
                forall|j: int| 0 <= j < p ==> chars_lt(#[trigger] tags0[j]@, tag@),
            decreases tags0.len() - p,
        {
            p = p + 1;
        }
        let present = if p < index.tags.len() {
            let c = chars_of(index.tags[p].as_str());
            same_chars(c.as_slice(), t.as_slice())
        } else {
            false
        };
        if !present {
            index.tags.insert(p, string_of(t.as_slice()));
        }
        self.indices.insert(id.0, index);
        proof {
            let ix = self.indices@;
            let ii = id.0 as int;
            let tags = ix[ii].tags@;
            assert(ix =~= ix0.update(ii, ix[ii]));
            // Every tag after position p comes after the new one.
            assert forall|j: int| p <= j < tags0.len() implies (tags0[j]@ == tag@ || chars_lt(
                tag@,
                #[trigger] tags0[j]@,
            )) by {
                crate::name::lemma_chars_lt_order(tags0[p as int]@, tag@, tags0[j]@);
                crate::name::lemma_chars_lt_order(tag@, tags0[p as int]@, tags0[j]@);
                if j > p {
                    assert(chars_lt(tags0[p as int]@, tags0[j]@));
                }
            }
            if !present {
                assert forall|a: int, b: int| 0 <= a < b < tags.len() implies chars_lt(
                    #[trigger] tags[a]@,
                    #[trigger] tags[b]@,
                ) by {
                    if b == p {
                        assert(tags[a] == tags0[a]);
                    } else if a == p {
                        assert(tags[b] == tags0[b - 1]);
                        if p < tags0.len() {
                            assert(tags0[p as int]@ != tag@);
                        }
                    } else {
                        let a0 = if a < p { a } else { a - 1 };
                        let b0 = if b < p { b } else { b - 1 };
                        assert(tags[a] == tags0[a0]);
                        assert(tags[b] == tags0[b0]);
                    }
                }
                assert forall|x: Seq<char>|
                    #[trigger] tagged(tags, x) <==> (x == tag@ || tagged(tags0, x)) by {
                    if exists|k: int| 0 <= k < tags.len() && #[trigger] tags[k]@ == x {
                        let k = choose|k: int| 0 <= k < tags.len() && #[trigger] tags[k]@ == x;
                        if k < p {
                            assert(tags[k] == tags0[k]);
                        } else if k > p {
                            assert(tags[k] == tags0[k - 1]);
                        }
                    }
                    if exists|k: int| 0 <= k < tags0.len() && tags0[k]@ == x {
                        let k = choose|k: int| 0 <= k < tags0.len() && tags0[k]@ == x;
                        if k < p {
                            assert(tags[k] == tags0[k]);
                        } else {
                            assert(tags[k + 1] == tags0[k]);
                        }
                    }
                    if x == tag@ {
                        assert(tags[p as int]@ == x);
                    }
                }
            } else {
                assert(tags == tags0);
            }
            let ts = self.tensors@;
            assert forall|t: int, s: int|
                #![trigger ts[t].slots@[s]]
                0 <= t < ts.len() && 0 <= s < ts[t].slots@.len() implies {
                let i = ts[t].slots@[s].index.0 as int;
                &&& 0 <= i < ix.len()
                &&& ix[i].holders_view().contains((TensorId(t as usize), s as usize))
            } by {
                let i = ts[t].slots@[s].index.0 as int;
                assert(ix[i].holders == ix0[i].holders);
            }
            assert forall|i: int, h: int|
                #![trigger ix[i].holders_view()[h]]
                0 <= i < ix.len() && 0 <= h < ix[i].holders_view().len() implies {
                let (t, s) = ix[i].holders_view()[h];
                &&& t.0 < ts.len()
                &&& s < ts[t.0 as int].slots@.len()
                &&& ts[t.0 as int].slots@[s as int].index.0 == i
            } by {
                assert(ix[i].holders == ix0[i].holders);
                assert(ix[i].holders_view()[h] == ix0[i].holders_view()[h]);
            }
            assert forall|i: int| 0 <= i < ix.len() implies #[trigger] ix[i].holders_view().len() <= 2 by {
                assert(ix[i].holders == ix0[i].holders);
                assert(ix0[i].holders_view().len() <= 2);
            }
            assert forall|i: int| 0 <= i < ix.len() implies (#[trigger] ix[i].holders_view()).no_duplicates() by {
                assert(ix[i].holders == ix0[i].holders);
            }
            assert forall|i: int| 0 <= i < ix.len() implies tags_sorted(#[trigger] ix[i].tags@) by {
                if i != ii {
                    assert(ix[i] == ix0[i]);
                }
            }
        }
    }

    /// Set the dimension of an index.
    pub fn set_dim(&mut self, id: IndexId, dim: u64)
        requires
            old(self).wf(),
            id.0 < old(self).indices_view().len(),
        ensures
            final(self).wf(),
            same_extras(old(self), final(self)),
            grows(old(self), final(self)),
            final(self).tensors_view() == old(self).tensors_view(),
            final(self).indices_view().len() == old(self).indices_view().len(),
            final(self).links_made() == old(self).links_made(),
            final(self).sites_made() == old(self).sites_made(),
            forall|j: int|
                0 <= j < old(self).indices_view().len() && j != id.0 ==> final(self).indices_view()[j]
                    == old(self).indices_view()[j],
            final(self).indices_view()[id.0 as int].holders == old(self).indices_view()[id.0 as int].holders,
            final(self).indices_view()[id.0 as int].tags == old(self).indices_view()[id.0 as int].tags,
            final(self).indices_view()[id.0 as int].dim == Some(dim),
    {
        let ghost ix0 = self.indices@;
        let mut index = self.indices.remove(id.0);
        index.dim = Some(dim);
        self.indices.insert(id.0, index);
        proof {
            let ix = self.indices@;
            let ii = id.0 as int;
            assert(ix =~= ix0.update(ii, ix[ii]));
            let ts = self.tensors@;
            assert forall|t: int, s: int|
                #![trigger ts[t].slots@[s]]
                0 <= t < ts.len() && 0 <= s < ts[t].slots@.len() implies {
                let i = ts[t].slots@[s].index.0 as int;
                &&& 0 <= i < ix.len()
                &&& ix[i].holders_view().contains((TensorId(t as usize), s as usize))
            } by {
                let i = ts[t].slots@[s].index.0 as int;
                assert(ix[i].holders == ix0[i].holders);
            }
            assert forall|i: int, h: int|
                #![trigger ix[i].holders_view()[h]]
                0 <= i < ix.len() && 0 <= h < ix[i].holders_view().len() implies {
                let (t, s) = ix[i].holders_view()[h];
                &&& t.0 < ts.len()
                &&& s < ts[t.0 as int].slots@.len()
                &&& ts[t.0 as int].slots@[s as int].index.0 == i
            } by {
                assert(ix[i].holders == ix0[i].holders);
                assert(ix[i].holders_view()[h] == ix0[i].holders_view()[h]);
            }
            assert forall|i: int| 0 <= i < ix.len() implies #[trigger] ix[i].holders_view().len() <= 2 by {
                assert(ix[i].holders == ix0[i].holders);
                assert(ix0[i].holders_view().len() <= 2);
            }
            assert forall|i: int| 0 <= i < ix.len() implies (#[trigger] ix[i].holders_view()).no_duplicates() by {
                assert(ix[i].holders == ix0[i].holders);
            }
            assert forall|i: int| 0 <= i < ix.len() implies tags_sorted(#[trigger] ix[i].tags@) by {
                assert(ix[i].tags == ix0[i].tags);
            }
        }
    }

    /// An existing bond between two tensors, if any.
    pub fn bond_between(&self, a: TensorId, b: TensorId) -> (r: Option<IndexId>)
        requires
            self.wf(),
            a.0 < self.tensors_view().len(),
        ensures
            r == bond_between_spec(self.tensors_view(), self.indices_view(), a, b),
            r matches Some(i) ==> i.0 < self.indices_view().len(),
    {
        let slots = &self.tensors[a.0].slots;
        let ghost ix = self.indices@;
        proof {
            lemma_bond_slot(slots@, ix, a, b);
        }
        let mut k: usize = 0;
        while k < slots.len()
            invariant
                self.wf(),
                a.0 < self.tensors@.len(),
                slots@ == self.tensors@[a.0 as int].slots@,
                ix == self.indices@,
                k <= slots@.len(),
                forall|j: int| 0 <= j < k ==> !joins(ix[#[trigger] slots@[j].index.0 as int], a, b),
                -1 <= bond_slot(slots@, ix, a, b) < slots@.len(),
                bond_slot(slots@, ix, a, b) >= 0 ==> joins(
                    ix[slots@[bond_slot(slots@, ix, a, b)].index.0 as int],
                    a,
                    b,
                ),
                bond_slot(slots@, ix, a, b) < 0 ==> forall|j: int|
                    0 <= j < slots@.len() ==> !joins(ix[#[trigger] slots@[j].index.0 as int], a, b),
                bond_slot(slots@, ix, a, b) >= 0 ==> forall|j: int|
                    0 <= j < bond_slot(slots@, ix, a, b) ==> !joins(
                        ix[#[trigger] slots@[j].index.0 as int],
                        a,
                        b,
                    ),
            decreases slots@.len() - k,
        {
            let i = slots[k].index;
            assert(0 <= i.0 < ix.len()) by {
                assert(self.tensors@[a.0 as int].slots@[k as int] == slots@[k as int]);
            }
            let h = &self.indices[i.0].holders;
            if h.len() == 2 && ((h[0].0 == a && h[1].0 == b) || (h[0].0 == b && h[1].0 == a)) {
                assert(joins(ix[slots@[k as int].index.0 as int], a, b));
                return Some(i);
            }
            k = k + 1;
        }
        None
    }
}

/// Whether some slot of tensor `t` holds index `i`.
pub open spec fn holds(ts: Seq<Tensor>, t: TensorId, i: IndexId) -> bool {
    exists|s: int| 0 <= s < ts[t.0 as int].slots@.len() && #[trigger] ts[t.0 as int].slots@[s].index == i
}

/// The slot of `t` found by an optional label, or -1.
pub open spec fn label_slot(ts: Seq<Tensor>, t: TensorId, l: Option<String>) -> int {
    match l {
        Some(x) => label_pos(ts[t.0 as int].slots@, x@),
        None => -1,
    }
}

/// The index of slot `s` of tensor `t`.
pub open spec fn slot_index(ts: Seq<Tensor>, t: TensorId, s: int) -> IndexId {
    ts[t.0 as int].slots@[s].index
}

/// `A - B` without labels where a bond between them exists: it is reused.
pub open spec fn reuses(n: &Network, a: TensorId, la: &Option<String>, b: TensorId, lb: &Option<String>) -> bool {
    la.is_none() && lb.is_none() && bond_between_spec(n.tensors_view(), n.indices_view(), a, b) is Some
}

/// `A.r and B.l are already used by other bonds`.
pub open spec fn legs_used_text(a: Name, la: Seq<char>, b: Name, lb: Seq<char>) -> Seq<char> {
    name_text(a.base@, a.subscripts@) + "."@ + la + " and "@ + name_text(b.base@, b.subscripts@) + "."@
        + lb + " are already used by other bonds"@
}

proof fn lemma_label_pos_push(s: Seq<Slot>, x: Slot, l: Seq<char>)
    requires
        label_pos(s, l) < 0,
        labelled(x, l),
    ensures
        label_pos(s.push(x), l) == s.len(),
{
    assert(s.push(x).drop_last() =~= s);
}

proof fn lemma_label_pos_push_other(s: Seq<Slot>, x: Slot, l: Seq<char>)
    requires
        label_pos(s, l) >= 0,
    ensures
        label_pos(s.push(x), l) == label_pos(s, l),
{
    assert(s.push(x).drop_last() =~= s);
}

fn copy_label(l: &Option<String>) -> (r: Option<String>)
    ensures
        match l {
            Some(x) => r matches Some(y) && y@ == x@,
            None => r is None,
        },
{
    match l {
        Some(x) => Some(string_copy(x)),
        None => None,
    }
}

/// The index `ii` of `after`, named `_link[k]`, has no holders exactly when
/// every index of `before` with that name had none.
proof fn lemma_link_free(before: &Network, after: &Network, ii: int, k: int)
    requires
        after.wf(),
        grows(before, after),
        0 <= ii < after.indices_view().len(),
        auto_name_is(after.indices_view()[ii].name, auto_link(), k),
        after.indices_view()[ii].prime == 0,
        ii < before.indices_view().len() ==> after.indices_view()[ii].holders == before.indices_view()[ii].holders,
        ii >= before.indices_view().len() ==> after.indices_view()[ii].holders@.len() == 0,
    ensures
        auto_free(before.indices_view(), auto_link(), k, 1) <==> after.indices_view()[ii].holders@.len() == 0,
{
    reveal(auto_free);
    let b = before.indices_view();
    let c = after.indices_view();
    assert forall|j: int|
        0 <= j < b.len() && auto_name_is(#[trigger] b[j].name, auto_link(), k) && b[j].prime == 0 implies j
        == ii by {
        assert(c[j].name == b[j].name);
        assert(c[j].prime == b[j].prime);
        if j < ii {
            assert(same_name(c[j].name, c[ii].name));
            assert(!(same_name(after.indices@[j].name, after.indices@[ii].name) && after.indices@[j].prime
                == after.indices@[ii].prime));
        } else if j > ii {
            assert(same_name(c[ii].name, c[j].name));
            assert(!(same_name(after.indices@[ii].name, after.indices@[j].name) && after.indices@[ii].prime
                == after.indices@[j].prime));
        }
    }
    if ii < b.len() {
        assert(b[ii].name == c[ii].name);
    }
}

impl Network {
    /// The next `_link` index, tagged `Link`.
    fn make_link(&mut self) -> (r: Result<IndexId, Error>)
        requires
            old(self).wf(),
        ensures
            final(self).wf(),
            same_extras(old(self), final(self)),
            grows(old(self), final(self)),
            final(self).sites_made() == old(self).sites_made(),
            final(self).tensors_view() == old(self).tensors_view(),
            r is Ok <==> old(self).links_made() < 9223372036854775807,
            r is Err ==> *final(self) == *old(self),
            r is Err ==> final(self).links_made() == old(self).links_made(),
            r matches Ok(i) ==> {
                &&& final(self).links_made() == old(self).links_made() + 1
                &&& i.0 < final(self).indices_view().len()
                &&& auto_name_is(final(self).indices_view()[i.0 as int].name, auto_link(), final(self).links_made())
                &&& final(self).indices_view()[i.0 as int].prime == 0
                &&& tagged(final(self).indices_view()[i.0 as int].tags@, "Link"@)
                &&& (i.0 < old(self).indices_view().len() ==> final(self).indices_view()[i.0 as int].holders
                    == old(self).indices_view()[i.0 as int].holders)
                &&& (i.0 >= old(self).indices_view().len() ==> final(self).indices_view()[i.0 as int].holders@.len() == 0)
                &&& (auto_free(old(self).indices_view(), auto_link(), final(self).links_made(), 1)
                    ==> final(self).indices_view()[i.0 as int].holders@.len() == 0)
                &&& final(self).indices_view().len() <= old(self).indices_view().len() + 1
                &&& (final(self).indices_view().len() > old(self).indices_view().len() ==> i.0
                    == old(self).indices_view().len())
                &&& forall|j: int|
                    0 <= j < old(self).indices_view().len() && j != i.0 ==> #[trigger] final(self).indices_view()[j]
                        == old(self).indices_view()[j]
            },
    {
        let ghost n0 = *self;
        proof {
            lemma_grows_refl(self);
        }
        if self.auto_links == 9223372036854775807 {
            return Err(error_new(chars_of("too many bonds").as_slice()));
        }
        self.auto_links = self.auto_links + 1;
        let mut subs: Vec<i64> = Vec::new();
        subs.push(self.auto_links);
        let link = Name::new(string_of(chars_of("_link").as_slice()), subs);
        let ghost n1 = *self;
        let index = self.index_or_create(&link, 0);
        let ghost n2 = *self;
        self.add_tag(index, "Link");
        proof {
            let n3 = *self;
            lemma_grows_trans(&n0, &n2, &n3);
            assert(self.indices@[index.0 as int].name == n2.indices@[index.0 as int].name);
            assert(same_name(n2.indices@[index.0 as int].name, link));
            reveal(auto_free);
            assert(link.subscripts@ =~= seq![self.auto_links]);
            lemma_index_pos(n1.indices@, link, 0);
            if n2.indices@.len() > n1.indices@.len() {
                assert forall|j: int| 0 <= j < n1.indices@.len() implies #[trigger] n2.indices@[j] == n1.indices@[j] by {
                    assert(n2.indices@.drop_last()[j] == n2.indices@[j]);
                }
            }
            if index.0 < n0.indices@.len() {
                assert(n1.indices@ == n0.indices@);
                assert(auto_name_is(n0.indices@[index.0 as int].name, auto_link(), self.auto_links as int));
            }
        }
        Ok(index)
    }

    /// Join two tensors by a new `_link` index, tagged `Link`.
    #[verifier::rlimit(100)]
    #[verifier::spinoff_prover]
    fn connect_new(&mut self, a: TensorId, la: &Option<String>, b: TensorId, lb: &Option<String>) -> (r:
        Result<IndexId, Error>)
        requires
            old(self).wf(),
            a.0 < old(self).tensors_view().len(),
            b.0 < old(self).tensors_view().len(),
            label_slot(old(self).tensors_view(), a, *la) < 0,
            label_slot(old(self).tensors_view(), b, *lb) < 0,
        ensures
            final(self).wf(),
            same_extras(old(self), final(self)),
            grows(old(self), final(self)),
            final(self).sites_made() == old(self).sites_made(),
            r is Ok <==> old(self).links_made() < 9223372036854775807 && auto_free(
                old(self).indices_view(),
                auto_link(),
                old(self).links_made() + 1,
                1,
            ) && !(a == b && la is Some && lb is Some && la->Some_0@ == lb->Some_0@),
            links_fresh(old(self)) ==> links_fresh(final(self)),
            final(self).tensors_view().len() == old(self).tensors_view().len(),
            la is None && lb is None && bond_slot(old(self).tensors_view()[a.0 as int].slots@, old(self).indices_view(), a, b)
                < 0 ==> (r matches Ok(i) ==> bond_between_spec(final(self).tensors_view(), final(self).indices_view(), a, b)
                == Some(i) && bond_between_spec(final(self).tensors_view(), final(self).indices_view(), b, a) == Some(i)),
            r matches Ok(i) ==> {
                &&& final(self).links_made() == old(self).links_made() + 1
                &&& auto_name_is(final(self).indices_view()[i.0 as int].name, auto_link(), final(self).links_made())
                &&& final(self).indices_view()[i.0 as int].prime == 0
                &&& tagged(final(self).indices_view()[i.0 as int].tags@, "Link"@)
                &&& joins(final(self).indices_view()[i.0 as int], a, b)
                &&& i.0 < final(self).indices_view().len()
                &&& holds(final(self).tensors_view(), a, i)
                &&& holds(final(self).tensors_view(), b, i)
                &&& (la matches Some(l) ==> {
                    let k = label_pos(final(self).tensors_view()[a.0 as int].slots@, l@);
                    k >= 0 && final(self).tensors_view()[a.0 as int].slots@[k].index == i
                })
                &&& (lb matches Some(l) ==> {
                    let k = label_pos(final(self).tensors_view()[b.0 as int].slots@, l@);
                    k >= 0 && final(self).tensors_view()[b.0 as int].slots@[k].index == i
                })
                &&& bond_between_spec(final(self).tensors_view(), final(self).indices_view(), a, b) is Some
            },
            final(self).links_made() == old(self).links_made() || final(self).links_made()
                == old(self).links_made() + 1,
    {
        let ghost n0 = *self;
        let index = self.make_link()?;
        let ghost n3 = *self;
        let ghost k = n3.auto_links as int;
        // The new index is the one named `_link[k]`; it was free exactly when
        // it has no holders now.
        proof {
            lemma_link_free(&n0, &n3, index.0 as int, k);
        }
        let la2 = copy_label(la);
        let sa2 = match self.attach(a, index, la2) {
            Ok(x) => x,
            Err(e) => {
                proof {
                    if links_fresh(&n0) {
                        lemma_links_fresh_step(&n0, self, index.0 as int);
                    }
                }
                return Err(e);
            },
        };
        let ghost n4 = *self;
        proof {
            lemma_grows_trans(&n0, &n3, &n4);
        }
        let lb2 = copy_label(lb);
        let sb2 = match self.attach(b, index, lb2) {
            Ok(x) => x,
            Err(e) => {
                proof {
                    let t3 = n3.tensors@[b.0 as int].slots@;
                    let t4 = n4.tensors@[b.0 as int].slots@;
                    if a == b && lb.is_some() {
                        assert(t4 == t3.push(Slot { index, label: la2 }));
                        assert(t4.drop_last() =~= t3);
                    }
                    if links_fresh(&n0) {
                        lemma_links_fresh_step(&n0, self, index.0 as int);
                    }
                }
                return Err(e);
            },
        };
        proof {
            let n5 = *self;
            lemma_grows_trans(&n0, &n4, &n5);
            if links_fresh(&n0) {
                lemma_links_fresh_step(&n0, self, index.0 as int);
            }
            if la.is_none() && lb.is_none() && bond_slot(n0.tensors@[a.0 as int].slots@, n0.indices@, a, b) < 0 {
                assert(bond_between_spec(n5.tensors@, n5.indices@, a, b) == Some(index) && bond_between_spec(
                    n5.tensors@,
                    n5.indices@,
                    b,
                    a,
                ) == Some(index)) by {
                    lemma_connect_found(&n0, &n3, &n4, &n5, a, b, index, sa2, sb2);
                }
            }
            let ts = self.tensors@;
            let ix = self.indices@;
            assert(ix[index.0 as int].name == n3.indices@[index.0 as int].name);
            assert(ts[b.0 as int].slots@[sb2 as int].index == index);
            assert(n4.tensors@[a.0 as int].slots@[sa2 as int].index == index);
            if a == b {
                assert(ts[a.0 as int].slots@[sa2 as int] == n4.tensors@[a.0 as int].slots@[sa2 as int]);
            } else {
                assert(ts[a.0 as int] == n4.tensors@[a.0 as int]);
            }
            assert(holds(ts, a, index));
            assert(holds(ts, b, index));
            // The new index is held by exactly the two new slots.
            assert(ix[index.0 as int].holders@ =~= n3.indices@[index.0 as int].holders@.push((a, sa2)).push((b, sb2)));
            assert(n3.indices@[index.0 as int].holders@.len() == 0);
            assert(ix[index.0 as int].holders@ =~= seq![(a, sa2), (b, sb2)]);
            assert(joins(ix[index.0 as int], a, b));
            assert(ix[index.0 as int].tags == n3.indices@[index.0 as int].tags);
            assert(tagged(n3.indices@[index.0 as int].tags@, "Link"@));
            if la.is_none() && lb.is_none() {
                let slots = ts[a.0 as int].slots@;
                lemma_bond_slot(slots, ix, a, b);
                assert(slots[sa2 as int].index == index);
            }
            if la.is_some() {
                lemma_label_pos_push(n3.tensors@[a.0 as int].slots@, n4.tensors@[a.0 as int].slots@.last(), la->Some_0@);
                assert(n4.tensors@[a.0 as int].slots@ == n3.tensors@[a.0 as int].slots@.push(n4.tensors@[a.0 as int].slots@.last()));
                if a == b {
                    lemma_label_pos_push_other(n4.tensors@[a.0 as int].slots@, ts[a.0 as int].slots@.last(), la->Some_0@);
                    assert(ts[a.0 as int].slots@ == n4.tensors@[a.0 as int].slots@.push(ts[a.0 as int].slots@.last()));
                }
            }
            if lb.is_some() {
                lemma_label_pos_push(n4.tensors@[b.0 as int].slots@, ts[b.0 as int].slots@.last(), lb->Some_0@);
                assert(ts[b.0 as int].slots@ == n4.tensors@[b.0 as int].slots@.push(ts[b.0 as int].slots@.last()));
                if a != b {
                    assert(n4.tensors@[b.0 as int] == n3.tensors@[b.0 as int]);
                }
            }
        }
        Ok(index)
    }

    /// Give `other` a new slot holding the index of slot `s` of `owner`.
    #[verifier::rlimit(50)]
    fn join_leg(&mut self, owner: TensorId, s: usize, lo: &Option<String>, other: TensorId, lother: &Option<
        String,
    >) -> (r: Result<IndexId, Error>)
        requires
            old(self).wf(),
            owner.0 < old(self).tensors_view().len(),
            other.0 < old(self).tensors_view().len(),
            s < old(self).tensors_view()[owner.0 as int].slots@.len(),
            label_slot(old(self).tensors_view(), other, *lother) < 0,
            lo matches Some(l) ==> label_pos(old(self).tensors_view()[owner.0 as int].slots@, l@) == s,
        ensures
            final(self).wf(),
            same_extras(old(self), final(self)),
            grows(old(self), final(self)),
            final(self).links_made() == old(self).links_made(),
            final(self).sites_made() == old(self).sites_made(),
            r is Ok <==> old(self).indices_view()[old(self).tensors_view()[owner.0 as int].slots@[s as int].index.0 as int].holders@.len()
                < 2,
            final(self).tensors_view().len() == old(self).tensors_view().len(),
            r matches Ok(i) ==> {
                &&& i == old(self).tensors_view()[owner.0 as int].slots@[s as int].index
                &&& i.0 < final(self).indices_view().len()
                &&& holds(final(self).tensors_view(), owner, i)
                &&& holds(final(self).tensors_view(), other, i)
                &&& (lo matches Some(l) ==> {
                    let k = label_pos(final(self).tensors_view()[owner.0 as int].slots@, l@);
                    k >= 0 && final(self).tensors_view()[owner.0 as int].slots@[k].index == i
                })
                &&& (lother matches Some(l) ==> {
                    let k = label_pos(final(self).tensors_view()[other.0 as int].slots@, l@);
                    k >= 0 && final(self).tensors_view()[other.0 as int].slots@[k].index == i
                })
            },
    {
        proof {
            self.lemma_slot_index(owner, s as int);
        }
        let index = self.tensors[owner.0].slots[s].index;
        let ghost before = *self;
        let k = self.attach(other, index, copy_label(lother))?;
        proof {
            let ts = self.tensors@;
            assert(ts[other.0 as int].slots@[k as int].index == index);
            if owner != other {
                assert(ts[owner.0 as int] == before.tensors@[owner.0 as int]);
            }
            assert(ts[owner.0 as int].slots@[s as int] == before.tensors@[owner.0 as int].slots@[s as int]);
            assert(holds(ts, owner, index));
            assert(holds(ts, other, index));
            if lo.is_some() {
                if owner == other {
                    lemma_label_pos_push_other(before.tensors@[owner.0 as int].slots@, ts[owner.0 as int].slots@.last(), lo->Some_0@);
                    assert(ts[owner.0 as int].slots@ == before.tensors@[owner.0 as int].slots@.push(ts[owner.0 as int].slots@.last()));
                }
            }
            if lother.is_some() {
                lemma_label_pos_push(before.tensors@[other.0 as int].slots@, ts[other.0 as int].slots@.last(), lother->Some_0@);
                assert(ts[other.0 as int].slots@ == before.tensors@[other.0 as int].slots@.push(ts[other.0 as int].slots@.last()));
            }
        }
        Ok(index)
    }

    /// Connect two tensors.  Without leg labels, an existing bond between
    /// them is reused, so `A - B` twice is one bond; labelled legs are
    /// matched by label, and new legs are created as needed.
    #[verifier::rlimit(50)]
    pub fn connect(&mut self, a: TensorId, la: &Option<String>, b: TensorId, lb: &Option<String>) -> (r:
        Result<IndexId, Error>)
        requires
            old(self).wf(),
            a.0 < old(self).tensors_view().len(),
            b.0 < old(self).tensors_view().len(),
        ensures
            final(self).wf(),
            same_extras(old(self), final(self)),
            grows(old(self), final(self)),
            final(self).sites_made() == old(self).sites_made(),
            r is Ok <==> connect_ok(old(self), a, *la, b, *lb),
            final(self).tensors_view().len() == old(self).tensors_view().len(),
            la is None && lb is None && links_fresh(old(self)) ==> links_fresh(final(self)),
            label_slot(old(self).tensors_view(), a, *la) >= 0 && label_slot(old(self).tensors_view(), b, *lb)
                >= 0 ==> *final(self) == *old(self),
            label_slot(old(self).tensors_view(), a, *la) >= 0 && label_slot(old(self).tensors_view(), b, *lb)
                >= 0 && slot_index(old(self).tensors_view(), a, label_slot(old(self).tensors_view(), a, *la))
                == slot_index(old(self).tensors_view(), b, label_slot(old(self).tensors_view(), b, *lb))
                ==> r == Ok::<IndexId, Error>(
                slot_index(old(self).tensors_view(), a, label_slot(old(self).tensors_view(), a, *la)),
            ),
            label_slot(old(self).tensors_view(), a, *la) >= 0 && label_slot(old(self).tensors_view(), b, *lb)
                >= 0 && slot_index(old(self).tensors_view(), a, label_slot(old(self).tensors_view(), a, *la))
                != slot_index(old(self).tensors_view(), b, label_slot(old(self).tensors_view(), b, *lb))
                ==> (r matches Err(e) && e.pos.is_none() && e.message@ == legs_used_text(
                old(self).tensors_view()[a.0 as int].name,
                la->Some_0@,
                old(self).tensors_view()[b.0 as int].name,
                lb->Some_0@,
            )),
            reuses(old(self), a, la, b, lb) ==> *final(self) == *old(self) && r == Ok::<IndexId, Error>(
                bond_between_spec(old(self).tensors_view(), old(self).indices_view(), a, b)->Some_0,
            ),
            label_slot(old(self).tensors_view(), a, *la) < 0 && label_slot(old(self).tensors_view(), b, *lb)
                < 0 && !reuses(old(self), a, la, b, lb) ==> (r matches Ok(i) ==> {
                &&& final(self).links_made() == old(self).links_made() + 1
                &&& auto_name_is(final(self).indices_view()[i.0 as int].name, auto_link(), final(self).links_made())
                &&& final(self).indices_view()[i.0 as int].prime == 0
                &&& tagged(final(self).indices_view()[i.0 as int].tags@, "Link"@)
                &&& joins(final(self).indices_view()[i.0 as int], a, b)
            }),
            r matches Ok(i) ==> {
                &&& i.0 < final(self).indices_view().len()
                &&& holds(final(self).tensors_view(), a, i)
                &&& holds(final(self).tensors_view(), b, i)
                &&& (la matches Some(l) ==> {
                    let k = label_pos(final(self).tensors_view()[a.0 as int].slots@, l@);
                    k >= 0 && final(self).tensors_view()[a.0 as int].slots@[k].index == i
                })
                &&& (lb matches Some(l) ==> {
                    let k = label_pos(final(self).tensors_view()[b.0 as int].slots@, l@);
                    k >= 0 && final(self).tensors_view()[b.0 as int].slots@[k].index == i
                })
                &&& (la.is_none() && lb.is_none() ==> bond_between_spec(
                    final(self).tensors_view(),
                    final(self).indices_view(),
                    a,
                    b,
                ) == Some(i))
                &&& (la.is_none() && lb.is_none() && !reuses(old(self), a, la, b, lb) ==> bond_between_spec(
                    final(self).tensors_view(),
                    final(self).indices_view(),
                    b,
                    a,
                ) == Some(i))
            },
            final(self).links_made() == old(self).links_made() || final(self).links_made()
                == old(self).links_made() + 1,
    {
        let ghost ts0 = self.tensors@;
        let ghost n0 = *self;
        let sa = match la {
            Some(l) => self.slot_by_label(a, l),
            None => None,
        };
        let sb = match lb {
            Some(l) => self.slot_by_label(b, l),
            None => None,
        };
        proof {
            lemma_grows_refl(self);
        }
        match (sa, sb) {
            (Some(sa), Some(sb)) => {
                proof {
                    self.lemma_slot_index(a, sa as int);
                    self.lemma_slot_index(b, sb as int);
                }
                let ia = self.tensors[a.0].slots[sa].index;
                let ib = self.tensors[b.0].slots[sb].index;
                if ia == ib {
                    proof {
                        assert(holds(self.tensors@, a, ia));
                        assert(self.tensors@[b.0 as int].slots@[sb as int].index == ia);
                        assert(holds(self.tensors@, b, ia));
                        assert(0 <= ia.0 < self.indices@.len()) by {
                            assert(self.tensors@[a.0 as int].slots@[sa as int] == self.tensors@[a.0 as int].slots@[sa as int]);
                        }
                    }
                    Ok(ia)
                } else {
                    let mut m: Vec<char> = Vec::new();
                    self.tensors[a.0].name.push_text(&mut m);
                    push_str(&mut m, ".");
                    let lac = chars_of(la.as_ref().unwrap().as_str());
                    push_chars(&mut m, lac.as_slice());
                    push_str(&mut m, " and ");
                    self.tensors[b.0].name.push_text(&mut m);
                    push_str(&mut m, ".");
                    let lbc = chars_of(lb.as_ref().unwrap().as_str());
                    push_chars(&mut m, lbc.as_slice());
                    push_str(&mut m, " are already used by other bonds");
                    Err(error_new(m.as_slice()))
                }
            },
            (Some(sa), None) => self.join_leg(a, sa, la, b, lb),
            (None, Some(sb)) => {
                let r = self.join_leg(b, sb, lb, a, la);
                proof {
                    if r is Ok {
                        assert(holds(self.tensors@, a, r->Ok_0));
                    }
                }
                r
            },
            (None, None) => {
                if la.is_none() && lb.is_none() {
                    if let Some(existing) = self.bond_between(a, b) {
                        proof {
                            let slots = self.tensors@[a.0 as int].slots@;
                            lemma_bond_slot(slots, self.indices@, a, b);
                            let k = bond_slot(slots, self.indices@, a, b);
                            assert(holds(self.tensors@, a, existing));
                            let ix = self.indices@[existing.0 as int];
                            assert(ix.holders_view()[0] == ix.holders@[0]);
                            assert(ix.holders_view()[1] == ix.holders@[1]);
                            let (t0, s0) = ix.holders_view()[0];
                            let (t1, s1) = ix.holders_view()[1];
                            if t0 == b {
                                assert(self.tensors@[b.0 as int].slots@[s0 as int].index == existing);
                            } else {
                                assert(self.tensors@[b.0 as int].slots@[s1 as int].index == existing);
                            }
                            assert(holds(self.tensors@, b, existing));
                        }
                        return Ok(existing);
                    }
                }
                self.connect_new(a, la, b, lb)
            },
        }
    }
}

/// When connecting `a` and `b` succeeds: two labelled legs already hold the
/// same index; one labelled leg holds an index with a free end; an
/// unlabelled pair reuses a bond; otherwise the next `_link` index is free
/// and the two new legs do not take the same label.
pub open spec fn connect_ok(n: &Network, a: TensorId, la: Option<String>, b: TensorId, lb: Option<String>) -> bool {
    let ts = n.tensors_view();
    let ix = n.indices_view();
    let sa = label_slot(ts, a, la);
    let sb = label_slot(ts, b, lb);
    if sa >= 0 && sb >= 0 {
        slot_index(ts, a, sa) == slot_index(ts, b, sb)
    } else if sa >= 0 {
        ix[slot_index(ts, a, sa).0 as int].holders@.len() < 2
    } else if sb >= 0 {
        ix[slot_index(ts, b, sb).0 as int].holders@.len() < 2
    } else if la is None && lb is None && bond_between_spec(ts, ix, a, b) is Some {
        true
    } else {
        n.links_made() < 9223372036854775807 && auto_free(ix, auto_link(), n.links_made() + 1, 1) && !(a == b
            && la is Some && lb is Some && la->Some_0@ == lb->Some_0@)
    }
}

/// In a network built through its operations, slots and holders agree:
/// every slot of a tensor is a holder of its index, exactly once; every
/// holder of an index is a slot holding it; and no index has more than two
/// holders.
pub proof fn lemma_holders_agree(n: &Network)
    requires
        n.wf(),
    ensures
        links_agree(n.tensors_view(), n.indices_view()),
{
}

/// The position of the first group with the name, or -1.
pub open spec fn group_pos(gs: Seq<Group>, name: Seq<char>) -> int
    decreases gs.len(),
{
    if gs.len() == 0 {
        -1
    } else {
        let k = group_pos(gs.drop_last(), name);
        if k >= 0 {
            k
        } else if gs.last().name@ == name {
            gs.len() - 1
        } else {
            -1
        }
    }
}

pub proof fn lemma_group_pos(gs: Seq<Group>, name: Seq<char>)
    ensures
        -1 <= group_pos(gs, name) < gs.len(),
        group_pos(gs, name) >= 0 ==> gs[group_pos(gs, name)].name@ == name,
        group_pos(gs, name) < 0 ==> forall|j: int| 0 <= j < gs.len() ==> gs[j].name@ != name,
        group_pos(gs, name) >= 0 ==> forall|j: int| 0 <= j < group_pos(gs, name) ==> gs[j].name@ != name,
    decreases gs.len(),
{
    if gs.len() > 0 {
        lemma_group_pos(gs.drop_last(), name);
        assert(forall|j: int| 0 <= j < gs.len() - 1 ==> gs.drop_last()[j] == gs[j]);
    }
}

/// Every tensor, index, and slot named by the layout statements, groups,
/// and rules exists.
pub open spec fn refs_ok(n: &Network) -> bool {
    let nt = n.tensors_view().len();
    let ni = n.indices_view().len();
    &&& forall|g: int, k: int|
        0 <= g < n.groups_view().len() && 0 <= k < n.groups_view()[g].members@.len() ==> (
        #[trigger] n.groups_view()[g].members@[k]).0 < nt
    &&& forall|r: int| 0 <= r < n.layout_view().len() ==> layout_refs_ok(#[trigger] n.layout_view()[r], nt)
    &&& forall|r: int|
        0 <= r < n.rules_view().len() ==> selector_ok(#[trigger] n.rules_view()[r].selector, n.tensors_view(), ni)
}

pub open spec fn layout_refs_ok(l: LayoutStmt, nt: nat) -> bool {
    match l {
        LayoutStmt::At { tensor, .. } => tensor.0 < nt,
        LayoutStmt::Relative { tensor, anchor, .. } => tensor.0 < nt && anchor.0 < nt,
        LayoutStmt::Row { tensors } => forall|k: int| 0 <= k < tensors@.len() ==> (#[trigger] tensors@[k]).0 < nt,
        LayoutStmt::Tree { root, .. } => root.0 < nt,
        _ => true,
    }
}

pub open spec fn selector_ok(s: Selector, ts: Seq<Tensor>, ni: nat) -> bool {
    match s {
        Selector::Tensor(t) => t.0 < ts.len(),
        Selector::Index(i) => i.0 < ni,
        Selector::Slot(t, k) => t.0 < ts.len() && k < ts[t.0 as int].slots@.len(),
        _ => true,
    }
}

pub proof fn lemma_refs_grow(a: &Network, b: &Network)
    requires
        refs_ok(a),
        grows(a, b),
        same_extras(a, b),
    ensures
        refs_ok(b),
{
    assert forall|r: int| 0 <= r < b.rules_view().len() implies selector_ok(
        #[trigger] b.rules_view()[r].selector,
        b.tensors_view(),
        b.indices_view().len(),
    ) by {
        assert(selector_ok(a.rules_view()[r].selector, a.tensors_view(), a.indices_view().len()));
        match a.rules_view()[r].selector {
            Selector::Slot(t, k) => {
                assert(b.tensors_view()[t.0 as int].slots@.len() >= a.tensors_view()[t.0 as int].slots@.len());
            },
            _ => {},
        }
    }
    assert forall|r: int| 0 <= r < b.layout_view().len() implies layout_refs_ok(
        #[trigger] b.layout_view()[r],
        b.tensors_view().len(),
    ) by {
        assert(layout_refs_ok(a.layout_view()[r], a.tensors_view().len()));
        match a.layout_view()[r] {
            LayoutStmt::Row { tensors } => {
                assert forall|k: int| 0 <= k < tensors@.len() implies (#[trigger] tensors@[k]).0
                    < b.tensors_view().len() by {
                    assert(tensors@[k].0 < a.tensors_view().len());
                }
            },
            _ => {},
        }
    }
}

/// `group `g` is already defined`.
pub open spec fn group_defined_text(name: Seq<char>) -> Seq<char> {
    "group `"@ + name + "` is already defined"@
}

/// `` `g` is already a tensor name ``.
pub open spec fn tensor_name_text(name: Seq<char>) -> Seq<char> {
    "`"@ + name + "` is already a tensor name"@
}

/// Whether a name is a base without subscripts.
pub open spec fn is_plain(n: Name, base: Seq<char>) -> bool {
    n.base@ == base && n.subscripts@.len() == 0
}

impl Network {
    /// The position of the group with the name, if any.
    pub fn find_group(&self, name: &[char]) -> (r: Option<usize>)
        ensures
            match r {
                Some(k) => group_pos(self.groups_view(), name@) == k,
                None => group_pos(self.groups_view(), name@) == -1,
            },
            r matches Some(k) ==> k < self.groups_view().len(),
    {
        proof {
            lemma_group_pos(self.groups@, name@);
        }
        let mut k: usize = 0;
        while k < self.groups.len()
            invariant
                k <= self.groups@.len(),
                forall|j: int| 0 <= j < k ==> self.groups@[j].name@ != name@,
                -1 <= group_pos(self.groups@, name@) < self.groups@.len(),
                group_pos(self.groups@, name@) >= 0 ==> self.groups@[group_pos(self.groups@, name@)].name@
                    == name@,
                group_pos(self.groups@, name@) < 0 ==> forall|j: int|
                    0 <= j < self.groups@.len() ==> self.groups@[j].name@ != name@,
                group_pos(self.groups@, name@) >= 0 ==> forall|j: int|
                    0 <= j < group_pos(self.groups@, name@) ==> self.groups@[j].name@ != name@,
            decreases self.groups@.len() - k,
        {
            let g = chars_of(self.groups[k].name.as_str());
            if same_chars(g.as_slice(), name) {
                return Some(k);
            }
            k = k + 1;
        }
        None
    }

    /// The group with the name, if any.
    pub fn group(&self, name: &str) -> (r: Option<&Group>)
        ensures
            match r {
                Some(g) => group_pos(self.groups_view(), name@) >= 0 && *g == self.groups_view()[group_pos(
                    self.groups_view(),
                    name@,
                )],
                None => group_pos(self.groups_view(), name@) == -1,
            },
    {
        let c = chars_of(name);
        match self.find_group(c.as_slice()) {
            Some(k) => Some(&self.groups[k]),
            None => None,
        }
    }

    /// Define a group.
    pub fn add_group(&mut self, name: &String, members: Vec<TensorId>) -> (r: Result<(), Error>)
        requires
            old(self).wf(),
        ensures
            final(self).wf(),
            final(self).tensors_view() == old(self).tensors_view(),
            final(self).indices_view() == old(self).indices_view(),
            final(self).layout_view() == old(self).layout_view(),
            final(self).rules_view() == old(self).rules_view(),
            final(self).scene_view() == old(self).scene_view(),
            final(self).links_made() == old(self).links_made(),
            final(self).sites_made() == old(self).sites_made(),
            group_pos(old(self).groups_view(), name@) >= 0 ==> (r matches Err(e) && e.pos.is_none()
                && e.message@ == group_defined_text(name@) && final(self).groups_view()
                == old(self).groups_view()),
            group_pos(old(self).groups_view(), name@) < 0 && (exists|t: int|
                0 <= t < old(self).tensors_view().len() && is_plain(
                    #[trigger] old(self).tensors_view()[t].name,
                    name@,
                )) ==> (r matches Err(e) && e.pos.is_none() && e.message@ == tensor_name_text(name@)
                && final(self).groups_view() == old(self).groups_view()),
            group_pos(old(self).groups_view(), name@) < 0 && !(exists|t: int|
                0 <= t < old(self).tensors_view().len() && is_plain(
                    #[trigger] old(self).tensors_view()[t].name,
                    name@,
                )) ==> (r is Ok && final(self).groups_view().len() == old(self).groups_view().len() + 1
                && final(self).groups_view().drop_last() == old(self).groups_view()
                && final(self).groups_view().last().name@ == name@
                && final(self).groups_view().last().members@ == members@),
    {
        let c = chars_of(name.as_str());
        if self.find_group(c.as_slice()).is_some() {
            let mut m: Vec<char> = Vec::new();
            push_str(&mut m, "group `");
            push_chars(&mut m, c.as_slice());
            push_str(&mut m, "` is already defined");
            return Err(error_new(m.as_slice()));
        }
        let plain = Name::plain(string_copy(name));
        if let Some(t) = self.find_tensor(&plain) {
            proof {
                lemma_tensor_pos(self.tensors@, plain);
                assert(is_plain(self.tensors@[t.0 as int].name, name@));
            }
            let mut m: Vec<char> = Vec::new();
            push_str(&mut m, "`");
            push_chars(&mut m, c.as_slice());
            push_str(&mut m, "` is already a tensor name");
            return Err(error_new(m.as_slice()));
        }
        proof {
            lemma_tensor_pos(self.tensors@, plain);
            assert forall|t: int| 0 <= t < self.tensors@.len() implies !is_plain(
                #[trigger] self.tensors@[t].name,
                name@,
            ) by {
                assert(!same_name(self.tensors@[t].name, plain));
                if is_plain(self.tensors@[t].name, name@) {
                    assert(self.tensors@[t].name.subscripts@ =~= plain.subscripts@);
                }
            }
        }
        let ghost g0 = self.groups@;
        self.groups.push(Group { name: string_copy(name), members });
        assert(self.groups@.drop_last() =~= g0);
        Ok(())
    }

    /// Append a layout statement.
    pub fn push_layout(&mut self, stmt: LayoutStmt)
        requires
            old(self).wf(),
        ensures
            final(self).wf(),
            final(self).tensors_view() == old(self).tensors_view(),
            final(self).indices_view() == old(self).indices_view(),
            final(self).groups_view() == old(self).groups_view(),
            final(self).rules_view() == old(self).rules_view(),
            final(self).scene_view() == old(self).scene_view(),
            final(self).links_made() == old(self).links_made(),
            final(self).sites_made() == old(self).sites_made(),
            final(self).layout_view() == old(self).layout_view().push(stmt),
    {
        self.layout.push(stmt);
    }

    /// Append a style rule.
    pub fn push_rule(&mut self, rule: Rule)
        requires
            old(self).wf(),
        ensures
            final(self).wf(),
            final(self).tensors_view() == old(self).tensors_view(),
            final(self).indices_view() == old(self).indices_view(),
            final(self).groups_view() == old(self).groups_view(),
            final(self).layout_view() == old(self).layout_view(),
            final(self).scene_view() == old(self).scene_view(),
            final(self).links_made() == old(self).links_made(),
            final(self).sites_made() == old(self).sites_made(),
            final(self).rules_view() == old(self).rules_view().push(rule),
    {
        self.rules.push(rule);
    }

    /// Set the scene's dimension.
    pub fn set_scene_dim(&mut self, dim: Dim)
        requires
            old(self).wf(),
        ensures
            final(self).wf(),
            final(self).tensors_view() == old(self).tensors_view(),
            final(self).indices_view() == old(self).indices_view(),
            final(self).groups_view() == old(self).groups_view(),
            final(self).layout_view() == old(self).layout_view(),
            final(self).rules_view() == old(self).rules_view(),
            final(self).links_made() == old(self).links_made(),
            final(self).sites_made() == old(self).sites_made(),
            final(self).scene_view() == (Scene { dim, ..old(self).scene_view() }),
    {
        self.scene.dim = dim;
    }

    /// Set the spacing of the automatic layout.
    pub fn set_spacing(&mut self, spacing: Number)
        requires
            old(self).wf(),
        ensures
            final(self).wf(),
            final(self).tensors_view() == old(self).tensors_view(),
            final(self).indices_view() == old(self).indices_view(),
            final(self).groups_view() == old(self).groups_view(),
            final(self).layout_view() == old(self).layout_view(),
            final(self).rules_view() == old(self).rules_view(),
            final(self).links_made() == old(self).links_made(),
            final(self).sites_made() == old(self).sites_made(),
            final(self).scene_view() == (Scene { spacing: Some(spacing), ..old(self).scene_view() }),
    {
        self.scene.spacing = Some(spacing);
    }

    /// Set the light: an angle, or a vector.
    pub fn set_light(&mut self, light: Vec<Number>)
        requires
            old(self).wf(),
        ensures
            final(self).wf(),
            final(self).tensors_view() == old(self).tensors_view(),
            final(self).indices_view() == old(self).indices_view(),
            final(self).groups_view() == old(self).groups_view(),
            final(self).layout_view() == old(self).layout_view(),
            final(self).rules_view() == old(self).rules_view(),
            final(self).links_made() == old(self).links_made(),
            final(self).sites_made() == old(self).sites_made(),
            final(self).scene_view() == (Scene { light: Some(light), ..old(self).scene_view() }),
    {
        self.scene.light = Some(light);
    }

    /// Add to the camera: new angles replace the old ones, and attributes
    /// are appended.
    pub fn add_camera(&mut self, angles: Option<(Number, Number)>, attrs: &[Attr])
        requires
            old(self).wf(),
        ensures
            final(self).wf(),
            final(self).tensors_view() == old(self).tensors_view(),
            final(self).indices_view() == old(self).indices_view(),
            final(self).groups_view() == old(self).groups_view(),
            final(self).layout_view() == old(self).layout_view(),
            final(self).rules_view() == old(self).rules_view(),
            final(self).links_made() == old(self).links_made(),
            final(self).sites_made() == old(self).sites_made(),
            final(self).scene_view().dim == old(self).scene_view().dim,
            final(self).scene_view().spacing == old(self).scene_view().spacing,
            final(self).scene_view().light == old(self).scene_view().light,
            final(self).scene_view().camera matches Some(c) && {
                let before = match old(self).scene_view().camera {
                    Some(b) => (b.angles, attrs_view(b.attrs@)),
                    None => (None, Seq::empty()),
                };
                &&& c.angles == if angles is Some {
                    angles
                } else {
                    before.0
                }
                &&& attrs_view(c.attrs@) == before.1 + attrs_view(attrs@)
            },
    {
        let mut cam = match self.scene.camera.take() {
            Some(c) => c,
            None => Camera { angles: None, attrs: Vec::new() },
        };
        if angles.is_some() {
            cam.angles = angles;
        }
        let mut more: Vec<Attr> = Vec::new();
        let mut k: usize = 0;
        while k < attrs.len()
            invariant
                k <= attrs@.len(),
                attrs_view(more@) == attrs_view(attrs@.take(k as int)),
            decreases attrs@.len() - k,
        {
            let ghost before = more@;
            let a = attrs[k].copy();
            more.push(a);
            proof {
                assert(more@ =~= before.push(a));
                assert(attrs@.take(k + 1) =~= attrs@.take(k as int).push(attrs@[k as int]));
                assert(attrs_view(more@) =~= attrs_view(before).push(a@));
                assert(attrs_view(attrs@.take(k + 1)) =~= attrs_view(attrs@.take(k as int)).push(
                    attrs@[k as int]@,
                ));
            }
            k = k + 1;
        }
        assert(attrs@.take(attrs@.len() as int) =~= attrs@);
        let ghost start = cam.attrs@;
        cam.attrs.append(&mut more);
        assert(attrs_view(cam.attrs@) =~= attrs_view(start) + attrs_view(attrs@));
        self.scene.camera = Some(cam);
    }

    /// Replace the scene settings.
    pub fn set_scene(&mut self, scene: Scene)
        requires
            old(self).wf(),
        ensures
            final(self).wf(),
            final(self).tensors_view() == old(self).tensors_view(),
            final(self).indices_view() == old(self).indices_view(),
            final(self).groups_view() == old(self).groups_view(),
            final(self).layout_view() == old(self).layout_view(),
            final(self).rules_view() == old(self).rules_view(),
            final(self).links_made() == old(self).links_made(),
            final(self).sites_made() == old(self).sites_made(),
            final(self).scene_view() == scene,
    {
        self.scene = scene;
    }

    /// Give a tensor a new open leg, tagged `Site`.
    #[verifier::rlimit(50)]
    pub fn add_open_leg(&mut self, tensor: TensorId, label: Option<String>) -> (r: Result<usize, Error>)
        requires
            old(self).wf(),
            tensor.0 < old(self).tensors_view().len(),
        ensures
            final(self).wf(),
            same_extras(old(self), final(self)),
            grows(old(self), final(self)),
            final(self).links_made() == old(self).links_made(),
            final(self).sites_made() == old(self).sites_made() || final(self).sites_made()
                == old(self).sites_made() + 1,
            r is Ok <==> old(self).sites_made() < 9223372036854775807 && label_slot(
                old(self).tensors_view(),
                tensor,
                label,
            ) < 0 && auto_free(old(self).indices_view(), auto_site(), old(self).sites_made() + 1, 2),
            sites_fresh(old(self)) ==> sites_fresh(final(self)),
            r matches Ok(s) ==> {
                let slots = final(self).tensors_view()[tensor.0 as int].slots@;
                let i = slots[s as int].index;
                &&& s == old(self).tensors_view()[tensor.0 as int].slots@.len()
                &&& slots.len() == s + 1
                &&& slots[s as int].label == label
                &&& final(self).sites_made() == old(self).sites_made() + 1
                &&& i.0 < final(self).indices_view().len()
                &&& auto_name_is(final(self).indices_view()[i.0 as int].name, auto_site(), final(self).sites_made())
                &&& final(self).indices_view()[i.0 as int].prime == 0
                &&& tagged(final(self).indices_view()[i.0 as int].tags@, "Site"@)
                &&& final(self).indices_view()[i.0 as int].holders@.last() == (tensor, s)
                &&& final(self).tensors_view().len() == old(self).tensors_view().len()
            },
    {
        let ghost n0 = *self;
        if self.auto_sites == 9223372036854775807 {
            proof {
                lemma_grows_refl(self);
                lemma_sites_fresh_same(&n0, self);
            }
            return Err(error_new(chars_of("too many legs").as_slice()));
        }
        self.auto_sites = self.auto_sites + 1;
        let mut subs: Vec<i64> = Vec::new();
        subs.push(self.auto_sites);
        let site = Name::new(string_of(chars_of("_site").as_slice()), subs);
        let ghost n1 = *self;
        proof {
            lemma_grows_refl(&n1);
        }
        let index = self.index_or_create(&site, 0);
        let ghost n2 = *self;
        proof {
            reveal(auto_free);
            assert(site.subscripts@ =~= seq![self.auto_sites]);
            lemma_index_pos(n1.indices@, site, 0);
            let ip = index_pos(n1.indices@, site, 0);
            if ip >= 0 {
                assert(n2.indices@ == n1.indices@);
                assert(auto_name_is(n1.indices@[ip].name, auto_site(), self.auto_sites as int));
                assert forall|i: int|
                    0 <= i < n0.indices@.len() && auto_name_is(#[trigger] n0.indices@[i].name, auto_site(), self.auto_sites as int)
                        && n0.indices@[i].prime == 0 implies i == ip by {
                    assert(n1.indices@ == n0.indices@);
                    if i < ip {
                        assert(same_name(n0.indices@[i].name, n0.indices@[ip].name));
                        assert(!(same_name(n0.indices@[i].name, n0.indices@[ip].name) && n0.indices@[i].prime
                            == n0.indices@[ip].prime));
                    } else if i > ip {
                        assert(same_name(n0.indices@[ip].name, n0.indices@[i].name));
                        assert(!(same_name(n0.indices@[ip].name, n0.indices@[i].name) && n0.indices@[ip].prime
                            == n0.indices@[i].prime));
                    }
                }
            } else {
                assert forall|i: int|
                    0 <= i < n0.indices@.len() && auto_name_is(#[trigger] n0.indices@[i].name, auto_site(), self.auto_sites as int)
                        && n0.indices@[i].prime == 0 implies false by {
                    assert(same_name(n0.indices@[i].name, site));
                }
            }
        }
        self.add_tag(index, "Site");
        let ghost n3 = *self;
        proof {
            lemma_grows_trans(&n1, &n2, &n3);
            assert(n1.indices@ == n0.indices@);
            if n2.indices@.len() > n1.indices@.len() {
                assert forall|j: int| 0 <= j < n1.indices@.len() implies #[trigger] n2.indices@[j] == n1.indices@[j] by {
                    assert(n2.indices@.drop_last()[j] == n2.indices@[j]);
                }
            }
            assert(auto_name_is(n3.indices@[index.0 as int].name, auto_site(), n3.auto_sites as int)) by {
                assert(n3.indices@[index.0 as int].name == n2.indices@[index.0 as int].name);
            }
        }
        let s = match self.attach(tensor, index, label) {
            Ok(s) => s,
            Err(e) => {
                proof {
                    if sites_fresh(&n0) {
                        lemma_sites_fresh_step(&n0, self, index.0 as int);
                    }
                }
                return Err(e);
            },
        };
        proof {
            if sites_fresh(&n0) {
                lemma_sites_fresh_step(&n0, self, index.0 as int);
            }
            let n4 = *self;
            lemma_grows_trans(&n1, &n3, &n4);
            assert(self.indices@[index.0 as int].name == n2.indices@[index.0 as int].name);
            assert(same_name(n2.indices@[index.0 as int].name, site));
            assert(self.indices@[index.0 as int].tags == n3.indices@[index.0 as int].tags);
            assert(tagged(n3.indices@[index.0 as int].tags@, "Site"@));
        }
        Ok(s)
    }
}

/// The indices held by exactly `n` slots, in order.
pub open spec fn ids_held_by(ix: Seq<Index>, n: nat) -> Seq<IndexId>
    decreases ix.len(),
{
    if ix.len() == 0 {
        Seq::empty()
    } else {
        let p = ids_held_by(ix.drop_last(), n);
        if ix.last().holders@.len() == n {
            p.push(IndexId((ix.len() - 1) as usize))
        } else {
            p
        }
    }
}

/// Tensor ids in strictly increasing order of their names.
pub open spec fn sorted_by_name(ids: Seq<TensorId>, ts: Seq<Tensor>) -> bool {
    forall|i: int, j: int|
        0 <= i < j < ids.len() ==> name_lt(ts[(#[trigger] ids[i]).0 as int].name, ts[(#[trigger] ids[j]).0 as int].name)
}

impl Network {
    fn ids_held(&self, n: usize) -> (r: Vec<IndexId>)
        ensures
            r@ == ids_held_by(self.indices_view(), n as nat),
    {
        let mut r: Vec<IndexId> = Vec::new();
        let mut k: usize = 0;
        while k < self.indices.len()
            invariant
                k <= self.indices@.len(),
                r@ == ids_held_by(self.indices@.take(k as int), n as nat),
            decreases self.indices@.len() - k,
        {
            assert(self.indices@.take(k + 1).drop_last() =~= self.indices@.take(k as int));
            if self.indices[k].holders.len() == n {
                r.push(IndexId(k));
            }
            k = k + 1;
        }
        assert(self.indices@.take(self.indices@.len() as int) =~= self.indices@);
        r
    }

    /// Indices shared by two slots.
    pub fn bonds(&self) -> (r: Vec<IndexId>)
        ensures
            r@ == ids_held_by(self.indices_view(), 2),
    {
        self.ids_held(2)
    }

    /// Indices held by a single slot.
    pub fn open_legs(&self) -> (r: Vec<IndexId>)
        ensures
            r@ == ids_held_by(self.indices_view(), 1),
    {
        self.ids_held(1)
    }

    /// The tensors matching a pattern, in name order.
    pub fn match_tensors(&self, pattern: &NamePattern) -> (r: Vec<TensorId>)
        requires
            self.wf(),
        ensures
            forall|k: int|
                0 <= k < r@.len() ==> (#[trigger] r@[k]).0 < self.tensors_view().len() && pattern_matches(
                    *pattern,
                    self.tensors_view()[r@[k].0 as int].name,
                    0,
                ),
            forall|t: int|
                0 <= t < self.tensors_view().len() && pattern_matches(
                    *pattern,
                    #[trigger] self.tensors_view()[t].name,
                    0,
                ) ==> r@.contains(TensorId(t as usize)),
            sorted_by_name(r@, self.tensors_view()),
            r@.no_duplicates(),
    {
        let ghost ts = self.tensors@;
        let mut r: Vec<TensorId> = Vec::new();
        let mut t: usize = 0;
        while t < self.tensors.len()
            invariant
                self.wf(),
                ts == self.tensors@,
                t <= ts.len(),
                forall|k: int|
                    0 <= k < r@.len() ==> (#[trigger] r@[k]).0 < t && pattern_matches(
                        *pattern,
                        ts[r@[k].0 as int].name,
                        0,
                    ),
                forall|u: int|
                    0 <= u < t && pattern_matches(*pattern, #[trigger] ts[u].name, 0) ==> r@.contains(
                        TensorId(u as usize),
                    ),
                sorted_by_name(r@, ts),
            decreases ts.len() - t,
        {
            if pattern.matches(&self.tensors[t].name, 0) {
                let mut p: usize = 0;
                while p < r.len() && self.tensors[r[p].0].name.precedes(&self.tensors[t].name)
                    invariant
                        p <= r@.len(),
                        t < ts.len(),
                        ts == self.tensors@,
                        forall|k: int| 0 <= k < r@.len() ==> (#[trigger] r@[k]).0 < t,
                        forall|k: int| 0 <= k < p ==> name_lt(ts[(#[trigger] r@[k]).0 as int].name, ts[t as int].name),
                    decreases r@.len() - p,
                {
                    p = p + 1;
                }
                let ghost r0 = r@;
                r.insert(p, TensorId(t));
                proof {
                    let nt = ts[t as int].name;
                    assert forall|k: int| p <= k < r0.len() implies name_lt(nt, ts[(#[trigger] r0[k]).0 as int].name) by {
                        let q = ts[r0[p as int].0 as int].name;
                        let w = ts[r0[k].0 as int].name;
                        crate::name::lemma_name_order(q, nt, w);
                        crate::name::lemma_name_order(nt, q, w);
                        assert(!same_name(q, nt)) by {
                            assert(r0[p as int].0 < t);
                        }
                        if k > p {
                            assert(name_lt(q, w));
                        }
                    }
                    let rn = r@;
                    assert forall|i: int, j: int| 0 <= i < j < rn.len() implies name_lt(
                        ts[(#[trigger] rn[i]).0 as int].name,
                        ts[(#[trigger] rn[j]).0 as int].name,
                    ) by {
                        if j == p {
                            assert(rn[i] == r0[i]);
                        } else if i == p {
                            assert(rn[j] == r0[j - 1]);
                        } else {
                            let i0 = if i < p { i } else { i - 1 };
                            let j0 = if j < p { j } else { j - 1 };
                            assert(rn[i] == r0[i0]);
                            assert(rn[j] == r0[j0]);
                        }
                    }
                    assert forall|u: int|
                        0 <= u < t + 1 && pattern_matches(*pattern, #[trigger] ts[u].name, 0) implies rn.contains(
                        TensorId(u as usize),
                    ) by {
                        if u < t {
                            assert(r0.contains(TensorId(u as usize)));
                            let k = choose|k: int| 0 <= k < r0.len() && r0[k] == TensorId(u as usize);
                            if k < p {
                                assert(rn[k] == r0[k]);
                            } else {
                                assert(rn[k + 1] == r0[k]);
                            }
                        } else {
                            assert(rn[p as int] == TensorId(t));
                        }
                    }
                    assert forall|k: int| 0 <= k < rn.len() implies (#[trigger] rn[k]).0 < t + 1 && pattern_matches(
                        *pattern,
                        ts[rn[k].0 as int].name,
                        0,
                    ) by {
                        if k < p {
                            assert(rn[k] == r0[k]);
                        } else if k > p {
                            assert(rn[k] == r0[k - 1]);
                        }
                    }
                }
            }
            t = t + 1;
        }
        proof {
            let rn = r@;
            assert forall|i: int, j: int| 0 <= i < rn.len() && 0 <= j < rn.len() && i != j implies rn[i] != rn[j] by {
                if i < j {
                    crate::name::lemma_name_order(ts[rn[i].0 as int].name, ts[rn[j].0 as int].name, ts[rn[j].0 as int].name);
                } else {
                    crate::name::lemma_name_order(ts[rn[j].0 as int].name, ts[rn[i].0 as int].name, ts[rn[i].0 as int].name);
                }
            }
        }
        r
    }
}

/// What a style is resolved for.
#[derive(Clone, Copy, Debug, PartialEq, Eq, Structural)]
pub enum Styled {
    Tensor(TensorId),
    Bond(IndexId),
    /// A slot of a tensor.
    Leg(TensorId, usize),
}

/// Whether `target` names a tensor, an index, or a slot of the network.
pub open spec fn styled_ok(n: &Network, target: Styled) -> bool {
    match target {
        Styled::Tensor(t) => t.0 < n.tensors_view().len(),
        Styled::Bond(i) => i.0 < n.indices_view().len(),
        Styled::Leg(t, k) => t.0 < n.tensors_view().len() && k < n.tensors_view()[t.0 as int].slots@.len(),
    }
}

/// How specifically a rule on an index applies: 1 for a tag, 2 for a name
/// or the index itself.
pub open spec fn index_level(ix: Index, i: IndexId, sel: Selector) -> Option<u8> {
    match sel {
        Selector::Tag(tag) => if tagged(ix.tags@, tag@) { Some(1u8) } else { None },
        Selector::Name(p) => if pattern_matches(p, ix.name, ix.prime) { Some(2u8) } else { None },
        Selector::Index(id) => if id == i { Some(2u8) } else { None },
        _ => None,
    }
}

/// How specifically a rule applies to a target: 0 for a type, 1 for a tag
/// or group, 2 for a name; `None` when it does not apply.
pub open spec fn rule_level(n: &Network, target: Styled, sel: Selector) -> Option<u8> {
    match target {
        Styled::Tensor(t) => match sel {
            Selector::Tensors => Some(0u8),
            Selector::Tensor(id) => if id == t { Some(2u8) } else { None },
            Selector::Name(p) => if p.subscripts@.len() == 0 && p.prime == 0 && group_pos(
                n.groups_view(),
                p.base@,
            ) >= 0 {
                if n.groups_view()[group_pos(n.groups_view(), p.base@)].members@.contains(t) {
                    Some(1u8)
                } else {
                    None
                }
            } else if pattern_matches(p, n.tensors_view()[t.0 as int].name, 0) {
                Some(2u8)
            } else {
                None
            },
            _ => None,
        },
        Styled::Bond(i) => match sel {
            Selector::Bonds => Some(0u8),
            _ => index_level(n.indices_view()[i.0 as int], i, sel),
        },
        Styled::Leg(t, k) => {
            let tensor = n.tensors_view()[t.0 as int];
            let slot = tensor.slots@[k as int];
            let ix = n.indices_view()[slot.index.0 as int];
            let open = ix.holders@.len() == 1;
            match sel {
                Selector::Legs => Some(0u8),
                Selector::OpenLegs => if open { Some(1u8) } else { None },
                Selector::Slot(id, j) => if id == t && j == k { Some(2u8) } else { None },
                Selector::LegOf(p, key) => if pattern_matches(p, tensor.name, 0) && match key {
                    LegKey::Label(l) => labelled(slot, l@),
                    LegKey::Position(m) => m == k + 1,
                } {
                    Some(2u8)
                } else {
                    None
                },
                _ => if open { index_level(ix, slot.index, sel) } else { None },
            }
        },
    }
}

/// The attributes of the rules that apply at level `l`, in source order.
pub open spec fn level_attrs(n: &Network, target: Styled, rules: Seq<Rule>, l: u8) -> Seq<(Seq<char>, ValueView)>
    decreases rules.len(),
{
    if rules.len() == 0 {
        Seq::empty()
    } else {
        let p = level_attrs(n, target, rules.drop_last(), l);
        if rule_level(n, target, rules.last().selector) == Some(l) {
            p + attrs_view(rules.last().attrs@)
        } else {
            p
        }
    }
}

/// The attributes of a target after the cascade: the matching rules merged
/// by specificity (type, then tag or group, then name), and in source order
/// within a specificity.
pub open spec fn style_of(n: &Network, target: Styled) -> Seq<(Seq<char>, ValueView)> {
    merge_seq(
        level_attrs(n, target, n.rules_view(), 0) + level_attrs(n, target, n.rules_view(), 1) + level_attrs(
            n,
            target,
            n.rules_view(),
            2,
        ),
    )
}

fn key_hits(slot: &Slot, k: usize, key: &LegKey) -> (r: bool)
    ensures
        r == match key {
            LegKey::Label(l) => labelled(*slot, l@),
            LegKey::Position(m) => *m == k + 1,
        },
{
    match key {
        LegKey::Label(l) => slot_has_label(slot, l),
        LegKey::Position(m) => k < usize::MAX && *m == k + 1,
    }
}

impl Network {
    fn index_rule(&self, i: IndexId, sel: &Selector) -> (r: Option<u8>)
        requires
            i.0 < self.indices_view().len(),
        ensures
            r == index_level(self.indices_view()[i.0 as int], i, *sel),
    {
        let ix = &self.indices[i.0];
        match sel {
            Selector::Tag(tag) => {
                if ix.has_tag(tag) {
                    Some(1)
                } else {
                    None
                }
            },
            Selector::Name(p) => {
                if p.matches(&ix.name, ix.prime) {
                    Some(2)
                } else {
                    None
                }
            },
            Selector::Index(id) => {
                if *id == i {
                    Some(2)
                } else {
                    None
                }
            },
            _ => None,
        }
    }

    /// How specifically a rule applies to a target.
    pub fn level(&self, target: Styled, sel: &Selector) -> (r: Option<u8>)
        requires
            self.wf(),
            styled_ok(self, target),
        ensures
            r == rule_level(self, target, *sel),
    {
        match target {
            Styled::Tensor(t) => match sel {
                Selector::Tensors => Some(0),
                Selector::Tensor(id) => {
                    if *id == t {
                        Some(2)
                    } else {
                        None
                    }
                },
                Selector::Name(p) => {
                    if p.is_bare() {
                        let base = chars_of(p.base.as_str());
                        if let Some(g) = self.find_group(base.as_slice()) {
                            let members = &self.groups[g].members;
                            let mut k: usize = 0;
                            #[verifier::loop_isolation(false)]
                            while k < members.len()
                                invariant
                                    k <= members@.len(),
                                    forall|j: int| 0 <= j < k ==> members@[j] != t,
                                decreases members@.len() - k,
                            {
                                if members[k] == t {
                                    assert(members@[k as int] == t);
                                    return Some(1);
                                }
                                k = k + 1;
                            }
                            return None;
                        }
                    }
                    if p.matches(&self.tensors[t.0].name, 0) {
                        Some(2)
                    } else {
                        None
                    }
                },
                _ => None,
            },
            Styled::Bond(i) => match sel {
                Selector::Bonds => Some(0),
                _ => self.index_rule(i, sel),
            },
            Styled::Leg(t, k) => {
                let slot = &self.tensors[t.0].slots[k];
                proof {
                    self.lemma_slot_index(t, k as int);
                }
                let open = self.indices[slot.index.0].holders.len() == 1;
                match sel {
                    Selector::Legs => Some(0),
                    Selector::OpenLegs => {
                        if open {
                            Some(1)
                        } else {
                            None
                        }
                    },
                    Selector::Slot(id, j) => {
                        if *id == t && *j == k {
                            Some(2)
                        } else {
                            None
                        }
                    },
                    Selector::LegOf(p, key) => {
                        if p.matches(&self.tensors[t.0].name, 0) && key_hits(slot, k, key) {
                            Some(2)
                        } else {
                            None
                        }
                    },
                    _ => {
                        if open {
                            self.index_rule(slot.index, sel)
                        } else {
                            None
                        }
                    },
                }
            },
        }
    }

    /// The attributes of a tensor, bond, or leg after the cascade.
    pub fn style(&self, target: Styled) -> (r: Vec<Attr>)
        requires
            self.wf(),
            styled_ok(self, target),
        ensures
            attrs_view(r@) == style_of(self, target),
    {
        let mut out: Vec<Attr> = Vec::new();
        let ghost rules = self.rules@;
        let mut l: u8 = 0;
        assert(attrs_view(out@) =~= Seq::<(Seq<char>, ValueView)>::empty());
        while l < 3
            invariant
                self.wf(),
                styled_ok(self, target),
                rules == self.rules@,
                l <= 3,
                attrs_view(out@) == merge_seq_from(
                    Seq::empty(),
                    (if l >= 1 { level_attrs(self, target, rules, 0) } else { Seq::empty() }) + (if l >= 2 {
                        level_attrs(self, target, rules, 1)
                    } else {
                        Seq::empty()
                    }) + (if l >= 3 { level_attrs(self, target, rules, 2) } else { Seq::empty() }),
                ),
            decreases 3 - l,
        {
            let ghost before = attrs_view(out@);
            let ghost prefix = (if l >= 1 { level_attrs(self, target, rules, 0) } else { Seq::empty() }) + (
            if l >= 2 {
                level_attrs(self, target, rules, 1)
            } else {
                Seq::empty()
            }) + (if l >= 3 { level_attrs(self, target, rules, 2) } else { Seq::empty() });
            let mut k: usize = 0;
            assert(rules.take(0) =~= Seq::<Rule>::empty());
            assert(prefix + level_attrs(self, target, rules.take(0), l) =~= prefix);
            while k < self.rules.len()
                invariant
                    self.wf(),
                    styled_ok(self, target),
                    rules == self.rules@,
                    l < 3,
                    k <= rules.len(),
                    attrs_view(out@) == merge_seq_from(
                        Seq::empty(),
                        prefix + level_attrs(self, target, rules.take(k as int), l),
                    ),
                decreases rules.len() - k,
            {
                assert(rules.take(k + 1).drop_last() =~= rules.take(k as int));
                if self.level(target, &self.rules[k].selector) == Some(l) {
                    let ghost b = attrs_view(out@);
                    merge_into(&mut out, self.rules[k].attrs.as_slice());
                    proof {
                        crate::value::lemma_merge_concat(
                            Seq::empty(),
                            prefix + level_attrs(self, target, rules.take(k as int), l),
                            attrs_view(rules[k as int].attrs@),
                        );
                        assert(prefix + level_attrs(self, target, rules.take(k + 1), l) =~= prefix
                            + level_attrs(self, target, rules.take(k as int), l) + attrs_view(
                            rules[k as int].attrs@,
                        ));
                    }
                }
                k = k + 1;
            }
            assert(rules.take(rules.len() as int) =~= rules);
            proof {
                let lv0 = level_attrs(self, target, rules, 0);
                let lv1 = level_attrs(self, target, rules, 1);
                let lv2 = level_attrs(self, target, rules, 2);
                let e = Seq::<(Seq<char>, ValueView)>::empty();
                if l == 0 {
                    assert(prefix + lv0 =~= lv0 + e + e);
                } else if l == 1 {
                    assert(prefix + lv1 =~= lv0 + lv1 + e);
                } else {
                    assert(prefix + lv2 =~= lv0 + lv1 + lv2);
                }
            }
            l = l + 1;
        }
        proof {
            crate::value::lemma_merge_from_empty(
                level_attrs(self, target, rules, 0) + level_attrs(self, target, rules, 1) + level_attrs(
                    self,
                    target,
                    rules,
                    2,
                ),
            );
        }
        out
    }

    /// The attributes of a tensor after the cascade.
    pub fn tensor_style(&self, t: TensorId) -> (r: Vec<Attr>)
        requires
            self.wf(),
            t.0 < self.tensors_view().len(),
        ensures
            attrs_view(r@) == style_of(self, Styled::Tensor(t)),
    {
        self.style(Styled::Tensor(t))
    }

    /// The attributes of a bond (an index held by two slots) after the
    /// cascade.
    pub fn bond_style(&self, i: IndexId) -> (r: Vec<Attr>)
        requires
            self.wf(),
            i.0 < self.indices_view().len(),
        ensures
            attrs_view(r@) == style_of(self, Styled::Bond(i)),
    {
        self.style(Styled::Bond(i))
    }

    /// The attributes of one slot after the cascade.  Rules on the index
    /// apply too when the slot is an open leg.
    pub fn leg_style(&self, t: TensorId, slot: usize) -> (r: Vec<Attr>)
        requires
            self.wf(),
            t.0 < self.tensors_view().len(),
            slot < self.tensors_view()[t.0 as int].slots@.len(),
        ensures
            attrs_view(r@) == style_of(self, Styled::Leg(t, slot)),
    {
        self.style(Styled::Leg(t, slot))
    }
}

proof fn lemma_index_pos_first(ix: Seq<Index>, name: Name, prime: u32, k: int)
    requires
        0 <= k < ix.len(),
        same_name(ix[k].name, name) && ix[k].prime == prime,
    ensures
        0 <= index_pos(ix, name, prime) <= k,
    decreases ix.len(),
{
    lemma_index_pos(ix.drop_last(), name, prime);
    if k < ix.len() - 1 {
        assert(ix.drop_last()[k] == ix[k]);
        lemma_index_pos_first(ix.drop_last(), name, prime, k);
    }
}

} // verus!
