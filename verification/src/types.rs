//! Paths, their segments, and the error taxonomy.

use vstd::prelude::*;

verus! {

use crate::digits::{decimal_int, digits_of};
use crate::value::Val;

/// Model of a segment key: a literal text key, or an integer key.
pub enum KeyModel {
    Str(Seq<char>),
    Int(int),
}

/// Model of one path segment.
pub enum SegModel {
    Key(KeyModel),
    Index(int),
    KeyVar(Seq<char>),
    IndexVar(Seq<char>),
}

/// A literal object key: either text, or an integer that is looked up by its
/// decimal form but renders without escaping.
#[derive(Debug, PartialEq)]
pub enum SegmentKey {
    String(String),
    Int(i64),
}

/// One step of a path.
#[derive(Debug, PartialEq)]
pub enum Segment {
    Key(SegmentKey),
    Index(usize),
    KeyVariable(String),
    IndexVariable(String),
}

impl View for SegmentKey {
    type V = KeyModel;

    open spec fn view(&self) -> KeyModel {
        match self {
            SegmentKey::String(s) => KeyModel::Str(s@),
            SegmentKey::Int(i) => KeyModel::Int(*i as int),
        }
    }
}

impl View for Segment {
    type V = SegModel;

    open spec fn view(&self) -> SegModel {
        match self {
            Segment::Key(k) => SegModel::Key(k@),
            Segment::Index(i) => SegModel::Index(*i as int),
            Segment::KeyVariable(n) => SegModel::KeyVar(n@),
            Segment::IndexVariable(n) => SegModel::IndexVar(n@),
        }
    }
}

/// The string form under which a key is looked up in an object: integer keys
/// use their decimal rendering.
pub open spec fn key_string(k: KeyModel) -> Seq<char> {
    match k {
        KeyModel::Str(s) => s,
        KeyModel::Int(i) => decimal_int(i),
    }
}

/// The variable name a segment binds, if it is a variable segment.
pub open spec fn seg_var_name(s: SegModel) -> Option<Seq<char>> {
    match s {
        SegModel::KeyVar(n) => Some(n),
        SegModel::IndexVar(n) => Some(n),
        _ => None,
    }
}

/// The names of the variable segments, in path order.
pub open spec fn var_name_list(segs: Seq<SegModel>) -> Seq<Seq<char>>
    decreases segs.len(),
{
    if segs.len() == 0 {
        Seq::empty()
    } else {
        var_name_list(segs.drop_last()) + match seg_var_name(segs.last()) {
            Some(n) => seq![n],
            None => Seq::empty(),
        }
    }
}

pub open spec fn has_variables(segs: Seq<SegModel>) -> bool {
    exists|i: int| 0 <= i < segs.len() && seg_var_name(#[trigger] segs[i]) is Some
}

pub open spec fn distinct_seqs(l: Seq<Seq<char>>) -> bool {
    forall|i: int, j: int| 0 <= i < j < l.len() ==> l[i] != l[j]
}

/// A path: an ordered sequence of segments, plus the set of variable names
/// already used, which enforces that a name appears in at most one segment.
#[derive(Debug, PartialEq)]
pub struct Structpath {
    segments: Vec<Segment>,
    variable_names: Vec<String>,
}

/// Everything that can go wrong while parsing or applying a path.
#[derive(Debug, PartialEq)]
pub enum StructpathError {
    ParseError(String),
    DuplicateVariable(String),
    NotFound,
    InvalidPath { expected: String, found: String },
    IndexOutOfBounds(String),
    MissingVariable(String),
    InvalidVariableValue(String),
}

/// Model of an error: the variant, and the data that determines it.
pub enum ErrModel {
    Parse,
    DuplicateVar(Seq<char>),
    NotFound,
    WrongType { want_object: bool, found: Val },
    OutOfBounds { idx: int, len: int },
    MissingVar(Seq<char>),
    BadVarValue(Seq<char>),
}

/// The word naming a value's kind, used in type-mismatch diagnostics.
pub open spec fn kind_name(v: Val) -> Seq<char> {
    match v {
        Val::Null => "null"@,
        Val::Bool(_) => "boolean"@,
        Val::Num(_) => "number"@,
        Val::Str(_) => "string"@,
        Val::Arr(_) => "array"@,
        Val::Obj(_) => "object"@,
    }
}

/// The exact out-of-bounds diagnostic for a requested index and array length.
pub open spec fn oob_message(idx: int, len: int) -> Seq<char> {
    "Index "@ + digits_of(idx as nat) + " out of bounds for array of length "@ + digits_of(
        len as nat,
    )
}

/// Whether an executable error is the one a model error describes.
pub open spec fn err_matches(e: StructpathError, m: ErrModel) -> bool {
    match m {
        ErrModel::Parse => e is ParseError,
        ErrModel::DuplicateVar(n) => e matches StructpathError::DuplicateVariable(s) && s@ == n,
        ErrModel::NotFound => e is NotFound,
        ErrModel::WrongType { want_object, found } => e matches StructpathError::InvalidPath {
            expected,
            found: f,
        } && expected@ == (if want_object {
            "object"@
        } else {
            "array"@
        }) && f@ == kind_name(found),
        ErrModel::OutOfBounds { idx, len } => e matches StructpathError::IndexOutOfBounds(s)
            && s@ == oob_message(idx, len),
        ErrModel::MissingVar(n) => e matches StructpathError::MissingVariable(s) && s@ == n,
        ErrModel::BadVarValue(v) => e matches StructpathError::InvalidVariableValue(s) && s@ == v,
    }
}

impl Structpath {
    pub closed spec fn names_view(&self) -> Seq<Seq<char>> {
        Seq::new(self.variable_names@.len(), |i: int| self.variable_names@[i]@)
    }

    /// The path's registered variable names are exactly those of its variable
    /// segments, in order, and no name repeats.
    pub open spec fn wf(&self) -> bool {
        &&& self.names_view() == var_name_list(self@)
        &&& distinct_seqs(self.names_view())
    }

    /// The empty path, addressing the root of a tree.
    pub fn new() -> (r: Structpath)
        ensures
            r@ == Seq::<SegModel>::empty(),
            r.wf(),
    {
        let r = Structpath { segments: Vec::new(), variable_names: Vec::new() };
        proof {
            assert(r@ =~= Seq::<SegModel>::empty());
            assert(r.names_view() =~= Seq::<Seq<char>>::empty());
            assert(var_name_list(r@) =~= Seq::<Seq<char>>::empty());
        }
        r
    }

    /// Appends a literal text key.
    pub fn push_string_key(&mut self, key: &str)
        requires
            old(self).wf(),
        ensures
            final(self)@ == old(self)@.push(SegModel::Key(KeyModel::Str(key@))),
            final(self).wf(),
    {
        let seg = Segment::Key(SegmentKey::String(key.to_owned()));
        self.segments.push(seg);
        proof {
            lemma_after_plain_push(*old(self), *self, seg@);
        }
    }

    /// Appends a literal integer key.
    pub fn push_int_key(&mut self, key: i64)
        requires
            old(self).wf(),
        ensures
            final(self)@ == old(self)@.push(SegModel::Key(KeyModel::Int(key as int))),
            final(self).wf(),
    {
        let seg = Segment::Key(SegmentKey::Int(key));
        self.segments.push(seg);
        proof {
            lemma_after_plain_push(*old(self), *self, seg@);
        }
    }

    /// Appends a literal array index.
    pub fn push_index(&mut self, index: usize)
        requires
            old(self).wf(),
        ensures
            final(self)@ == old(self)@.push(SegModel::Index(index as int)),
            final(self).wf(),
    {
        let seg = Segment::Index(index);
        self.segments.push(seg);
        proof {
            lemma_after_plain_push(*old(self), *self, seg@);
        }
    }

    /// Whether a variable name is already used by this path.
    fn knows_name(&self, name: &String) -> (r: bool)
        ensures
            r == self.names_view().contains(name@),
    {
        let mut i: usize = 0;
        while i < self.variable_names.len()
            invariant
                i <= self.variable_names@.len(),
                forall|j: int| 0 <= j < i ==> self.names_view()[j] != name@,
            decreases self.variable_names@.len() - i,
        {
            if self.variable_names[i].eq(name) {
                proof {
                    assert(self.names_view()[i as int] == name@);
                }
                return true;
            }
            i = i + 1;
        }
        proof {
            assert(forall|j: int|
                0 <= j < self.names_view().len() ==> self.names_view()[j] != name@);
        }
        false
    }

    /// Appends an object-key lookup deferred to a named variable. Fails if
    /// the name is already used in this path, leaving it unchanged.
    pub fn push_key_variable(&mut self, name: &str) -> (r: Result<(), StructpathError>)
        requires
            old(self).wf(),
        ensures
            match r {
                Ok(()) => !var_name_list(old(self)@).contains(name@) && final(self)@ == old(
                    self,
                )@.push(SegModel::KeyVar(name@)) && final(self).wf(),
                Err(e) => var_name_list(old(self)@).contains(name@) && err_matches(
                    e,
                    ErrModel::DuplicateVar(name@),
                ) && *final(self) == *old(self),
            },
    {
        let owned = name.to_owned();
        if self.knows_name(&owned) {
            return Err(StructpathError::DuplicateVariable(owned));
        }
        let seg = Segment::KeyVariable(owned);
        self.segments.push(seg);
        self.variable_names.push(name.to_owned());
        proof {
            lemma_after_var_push(*old(self), *self, seg@, name@);
        }
        Ok(())
    }

    /// Appends an array-index lookup deferred to a named variable. Fails if
    /// the name is already used in this path, leaving it unchanged.
    pub fn push_index_variable(&mut self, name: &str) -> (r: Result<(), StructpathError>)
        requires
            old(self).wf(),
        ensures
            match r {
                Ok(()) => !var_name_list(old(self)@).contains(name@) && final(self)@ == old(
                    self,
                )@.push(SegModel::IndexVar(name@)) && final(self).wf(),
                Err(e) => var_name_list(old(self)@).contains(name@) && err_matches(
                    e,
                    ErrModel::DuplicateVar(name@),
                ) && *final(self) == *old(self),
            },
    {
        let owned = name.to_owned();
        if self.knows_name(&owned) {
            return Err(StructpathError::DuplicateVariable(owned));
        }
        let seg = Segment::IndexVariable(owned);
        self.segments.push(seg);
        self.variable_names.push(name.to_owned());
        proof {
            lemma_after_var_push(*old(self), *self, seg@, name@);
        }
        Ok(())
    }

    /// The path's segments, in order.
    pub fn segments(&self) -> (r: &Vec<Segment>)
        ensures
            r@.len() == self@.len(),
            forall|i: int| 0 <= i < r@.len() ==> r@[i]@ == self@[i],
    {
        &self.segments
    }
}

impl View for Structpath {
    type V = Seq<SegModel>;

    closed spec fn view(&self) -> Seq<SegModel> {
        Seq::new(self.segments@.len(), |i: int| self.segments@[i]@)
    }
}

impl Default for Structpath {
    /// The default path is the empty path.
    fn default() -> (r: Structpath)
        ensures
            r@ == Seq::<SegModel>::empty(),
            r.wf(),
    {
        Structpath::new()
    }
}

impl Clone for SegmentKey {
    /// The copy equals the original.
    fn clone(&self) -> (r: SegmentKey)
        ensures
            r == *self,
    {
        match self {
            SegmentKey::String(s) => SegmentKey::String(s.clone()),
            SegmentKey::Int(i) => SegmentKey::Int(*i),
        }
    }
}

impl Clone for Segment {
    /// The copy equals the original.
    fn clone(&self) -> (r: Segment)
        ensures
            r == *self,
    {
        match self {
            Segment::Key(k) => Segment::Key(k.clone()),
            Segment::Index(i) => Segment::Index(*i),
            Segment::KeyVariable(n) => Segment::KeyVariable(n.clone()),
            Segment::IndexVariable(n) => Segment::IndexVariable(n.clone()),
        }
    }
}

impl Clone for Structpath {
    /// The copy has the same segments and the same registered names.
    fn clone(&self) -> (r: Structpath)
        ensures
            r@ == self@,
            r.names_view() == self.names_view(),
    {
        let mut segments: Vec<Segment> = Vec::new();
        let mut i: usize = 0;
        while i < self.segments.len()
            invariant
                i <= self.segments@.len(),
                segments@ == self.segments@.take(i as int),
            decreases self.segments@.len() - i,
        {
            segments.push(self.segments[i].clone());
            proof {
                assert(self.segments@.take(i + 1 as int) =~= self.segments@.take(i as int).push(
                    self.segments@[i as int],
                ));
            }
            i = i + 1;
        }
        let mut variable_names: Vec<String> = Vec::new();
        let mut j: usize = 0;
        while j < self.variable_names.len()
            invariant
                j <= self.variable_names@.len(),
                variable_names@ == self.variable_names@.take(j as int),
            decreases self.variable_names@.len() - j,
        {
            variable_names.push(self.variable_names[j].clone());
            proof {
                assert(self.variable_names@.take(j + 1 as int) =~= self.variable_names@.take(
                    j as int,
                ).push(self.variable_names@[j as int]));
            }
            j = j + 1;
        }
        let r = Structpath { segments, variable_names };
        proof {
            assert(r.segments@ =~= self.segments@);
            assert(r.variable_names@ =~= self.variable_names@);
        }
        r
    }
}

/// After appending a non-variable segment, a well-formed path stays so.
proof fn lemma_after_plain_push(p0: Structpath, p1: Structpath, sm: SegModel)
    requires
        p0.wf(),
        seg_var_name(sm) is None,
        p1.variable_names == p0.variable_names,
        p1.segments@.len() == p0.segments@.len() + 1,
        forall|i: int| 0 <= i < p0.segments@.len() ==> p1.segments@[i] == p0.segments@[i],
        p1.segments@.last()@ == sm,
    ensures
        p1@ == p0@.push(sm),
        p1.wf(),
{
    assert(p1@ =~= p0@.push(sm));
    assert(p1.names_view() =~= p0.names_view());
    lemma_push_non_var(p0@, sm);
}

/// After appending a variable segment with a fresh name, a well-formed path
/// stays so, with the name registered.
proof fn lemma_after_var_push(p0: Structpath, p1: Structpath, sm: SegModel, name: Seq<char>)
    requires
        p0.wf(),
        seg_var_name(sm) == Some(name),
        !p0.names_view().contains(name),
        p1.segments@.len() == p0.segments@.len() + 1,
        forall|i: int| 0 <= i < p0.segments@.len() ==> p1.segments@[i] == p0.segments@[i],
        p1.segments@.last()@ == sm,
        p1.variable_names@.len() == p0.variable_names@.len() + 1,
        forall|i: int|
            0 <= i < p0.variable_names@.len() ==> p1.variable_names@[i] == p0.variable_names@[i],
        p1.variable_names@.last()@ == name,
    ensures
        p1@ == p0@.push(sm),
        p1.wf(),
{
    assert(p1@ =~= p0@.push(sm));
    assert(p1.names_view() =~= p0.names_view().push(name));
    lemma_push_var(p0@, sm, name);
    assert(p1.names_view() =~= var_name_list(p1@));
    let l0 = p0.names_view();
    let l1 = p1.names_view();
    assert forall|i: int, j: int| 0 <= i < j < l1.len() implies l1[i] != l1[j] by {
        if j < l0.len() {
            assert(l0[i] != l0[j]);
        } else {
            if l0[i] == name {
                assert(l0.contains(name));
            }
        }
    }
}

/// Index segments carry non-negative positions. Every path built from
/// executable segments has this, since positions are machine integers.
pub open spec fn segs_index_nonneg(segs: Seq<SegModel>) -> bool {
    forall|j: int|
        0 <= j < segs.len() ==> ((#[trigger] segs[j]) matches SegModel::Index(n) ==> n >= 0)
}

pub proof fn lemma_path_index_nonneg(p: &Structpath)
    ensures
        segs_index_nonneg(p@),
{
    assert forall|j: int|
        0 <= j < p@.len() implies ((#[trigger] p@[j]) matches SegModel::Index(n) ==> n >= 0) by {
        assert(p@[j] == p.segments@[j]@);
    }
}

/// Appending a non-variable segment leaves the name list alone.
pub proof fn lemma_push_non_var(segs: Seq<SegModel>, seg: SegModel)
    requires
        seg_var_name(seg) is None,
    ensures
        var_name_list(segs.push(seg)) == var_name_list(segs),
{
    assert(segs.push(seg).drop_last() =~= segs);
    assert(var_name_list(segs.push(seg)) =~= var_name_list(segs));
}

/// Appending a variable segment appends its name to the name list.
pub proof fn lemma_push_var(segs: Seq<SegModel>, seg: SegModel, name: Seq<char>)
    requires
        seg_var_name(seg) == Some(name),
    ensures
        var_name_list(segs.push(seg)) == var_name_list(segs) + seq![name],
{
    assert(segs.push(seg).drop_last() =~= segs);
    assert(var_name_list(segs.push(seg)) =~= var_name_list(segs) + seq![name]);
}

} // verus!
