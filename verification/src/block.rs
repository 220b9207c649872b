//! Blocks: their runtime states, the interfaces a block storage offers, the
//! cursor that walks a storage, and the registry that names the states.

use vstd::prelude::*;
use vstd::string::*;
use std::collections::HashSet;
pub use crate::id::Id;
use crate::id::str_eq;
pub use crate::pos::BlockPos as Pos;
use crate::pos::spec_encode;

verus! {

broadcast use vstd::std_specs::hash::group_hash_axioms;

/// The runtime state of a block: a 16-bit handle that a registry hands out.
/// State 0 means that there is no block. The numbers are local to one
/// registry; only identifiers mean the same everywhere.
#[derive(Copy, Clone, Eq, PartialEq, Hash, Debug, Structural)]
pub struct Meta {
    inner: u16,
}

impl View for Meta {
    type V = u16;

    closed spec fn view(&self) -> u16 {
        self.inner
    }
}

impl Meta {
    /// The state with the number `inner`.
    pub fn new(inner: u16) -> (m: Meta)
        ensures
            m@ == inner,
    {
        Meta { inner }
    }

    /// The state's number.
    pub fn to_u16(&self) -> (n: u16)
        ensures
            n == self@,
    {
        self.inner
    }

    /// A state is determined by its number.
    pub proof fn lemma_eq_by_number(a: Meta, b: Meta)
        requires
            a@ == b@,
        ensures
            a == b,
    {
    }
}

/// Why an operation on blocks failed.
#[derive(Debug, PartialEq, Eq)]
pub enum Error {
    /// The storage behind a cursor failed; the text says how.
    Backend(String),
    /// The state read from storage has no identifier in the registry.
    UnknownState(Meta),
    /// The identifier is not in the registry.
    UnknownId,
    /// A line of text holds a line break and cannot be stored as one line.
    LineBreakInLine,
    /// A text buffer holds fewer lines than were asked for.
    MissingLines,
    /// A line of a text buffer is not UTF-8.
    InvalidText,
}

impl Clone for Error {
    /// A copy of the error.
    fn clone(&self) -> (e: Error)
        ensures
            e == *self,
    {
        match self {
            Error::Backend(text) => Error::Backend(text.clone()),
            Error::UnknownState(meta) => Error::UnknownState(*meta),
            Error::UnknownId => Error::UnknownId,
            Error::LineBreakInLine => Error::LineBreakInLine,
            Error::MissingLines => Error::MissingLines,
            Error::InvalidText => Error::InvalidText,
        }
    }
}

/// The result of an operation on blocks.
pub type Result<T> = std::result::Result<T, Error>;

/// Reading at a current position; for wrappers such as `Cursor`.
pub trait Read {
    /// Whether `r` is a result that `read_block` may give.
    open spec fn read_outcome(&self, r: Result<Meta>) -> bool {
        true
    }

    /// Whether `r` is a result that `check_current_block` may give.
    open spec fn check_outcome(&self, r: Result<bool>) -> bool {
        true
    }

    /// Reads the state at the current position, which stays where it is.
    fn read_block(&self) -> (r: Result<Meta>)
        ensures
            self.read_outcome(r),
    ;

    /// Whether there is a block at the current position.
    fn check_current_block(&self) -> (r: Result<bool>)
        ensures
            self.check_outcome(r),
    ;
}

/// Writing at a current position; for wrappers such as `Cursor`.
pub trait Write {
    /// Whether writing `new_meta` may turn `self` into `after` and give `r`.
    open spec fn write_outcome(&self, new_meta: Meta, after: &Self, r: Result<()>) -> bool {
        true
    }

    /// Whether flushing may turn `self` into `after` and give `r`.
    open spec fn flush_outcome(&self, after: &Self, r: Result<()>) -> bool {
        true
    }

    /// Writes a state at the current position, which stays where it is.
    fn write_block(&mut self, new_meta: Meta) -> (r: Result<()>)
        ensures
            old(self).write_outcome(new_meta, final(self), r),
    ;

    /// Makes sure that what was written has reached its destination.
    fn flush_block(&mut self) -> (r: Result<()>)
        ensures
            old(self).flush_outcome(final(self), r),
    ;
}

/// Reading at a given position; for the storage itself.
pub trait ReadExact {
    /// Whether `r` is a result that reading at `pos` may give.
    open spec fn read_exact_outcome(&self, pos: Pos, r: Result<Meta>) -> bool {
        true
    }

    /// Whether `r` is a result that asking for a block at `pos` may give.
    open spec fn contain_exact_outcome(&self, pos: Pos, r: Result<bool>) -> bool {
        true
    }

    /// Reads the state at `pos`.
    fn read_block_exact(&self, pos: Pos) -> (r: Result<Meta>)
        ensures
            self.read_exact_outcome(pos, r),
    ;

    /// Whether there is a block at `pos`.
    fn contain_block_exact(&self, pos: Pos) -> (r: Result<bool>)
        ensures
            self.contain_exact_outcome(pos, r),
    ;
}

/// Writing at a given position; for the storage itself.
pub trait WriteExact {
    /// Whether writing `meta` at `pos` may turn `self` into `after` and give `r`.
    open spec fn write_exact_outcome(
        &self,
        pos: Pos,
        meta: Meta,
        after: &Self,
        r: Result<()>,
    ) -> bool {
        true
    }

    /// Whether flushing may turn `self` into `after` and give `r`.
    open spec fn flush_exact_outcome(&self, after: &Self, r: Result<()>) -> bool {
        true
    }

    /// Writes `meta` at `pos`.
    fn write_block_exact(&mut self, pos: Pos, meta: Meta) -> (r: Result<()>)
        ensures
            old(self).write_exact_outcome(pos, meta, final(self), r),
    ;

    /// Makes sure that what was written has reached its destination.
    fn flush_block(&mut self) -> (r: Result<()>)
        ensures
            old(self).flush_exact_outcome(final(self), r),
    ;
}

/// Where to move a cursor.
#[derive(Copy, Clone, Eq, PartialEq, Debug)]
pub enum SeekFrom {
    /// To this position.
    Absolute(Pos),
    /// By this much along `x`, `y` and `z` from where it is.
    Relative(i32, i32, i32),
}

impl SeekFrom {
    /// The position that a cursor at `from` reaches. A relative move adds to
    /// the coordinates and packs the sums, so sums outside the field ranges
    /// wrap around like any other coordinates.
    pub open spec fn target(self, from: Pos) -> int {
        match self {
            SeekFrom::Absolute(pos) => pos.repr() as int,
            SeekFrom::Relative(dx, dy, dz) => spec_encode(
                from.x() + dx,
                from.y() + dy,
                from.z() + dz,
            ),
        }
    }
}

/// Moving a current position.
pub trait Seek {
    /// Whether moving as `from` says may turn `self` into `after` and give
    /// `r`.
    open spec fn seek_outcome(&self, from: SeekFrom, after: &Self, r: Result<()>) -> bool {
        true
    }

    /// Moves the current position. Any target is taken as it is.
    fn seek_block(&mut self, from: SeekFrom) -> (r: Result<()>)
        ensures
            old(self).seek_outcome(from, final(self), r),
    ;
}

/// A table that leads from identifiers to states and back; a storage has
/// one, and it does not change while the storage is in use.
pub trait IdSystem {
    /// The identifier of `state`, if it is registered. A table that does
    /// not say what it holds holds nothing.
    open spec fn spec_id(&self, state: u16) -> Option<Seq<char>> {
        None
    }

    /// The state of `id`, if it is registered. A table that does not say
    /// what it holds holds nothing.
    open spec fn spec_meta(&self, id: Seq<char>) -> Option<u16> {
        None
    }

    /// Whether `meta` is registered.
    fn has_block_meta(&self, meta: Meta) -> (b: bool)
        ensures
            b == (self.spec_id(meta@) is Some),
    ;

    /// The identifier of a registered state.
    fn block_meta_to_id(&self, meta: Meta) -> (id: Id)
        requires
            self.spec_id(meta@) is Some,
        ensures
            self.spec_id(meta@) == Some(id@),
    ;

    /// Whether `id` is registered.
    fn has_block_id(&self, id: Id) -> (b: bool)
        ensures
            b == (self.spec_meta(id@) is Some),
    ;

    /// The state of a registered identifier.
    fn block_id_to_meta(&self, id: Id) -> (meta: Meta)
        requires
            self.spec_meta(id@) is Some,
        ensures
            self.spec_meta(id@) == Some(meta@),
    ;
}

/// A storage that knows the names of its states.
pub trait IdOperate {
    /// The kind of table the storage has.
    type System: IdSystem;

    /// Whether `sys` may be the table that the storage hands out.
    open spec fn id_system_outcome(&self, sys: &Self::System) -> bool {
        true
    }

    /// The storage's table.
    fn block_id_system(&self) -> (sys: &Self::System)
        ensures
            self.id_system_outcome(sys),
    ;
}

/// What looking up the identifier of a state that was read gives: a failed
/// read is passed on, a registered state gives its identifier, and any
/// other state is reported as unknown.
pub open spec fn id_outcome<S: IdSystem>(sys: &S, m: Result<Meta>, r: Result<Id>) -> bool {
    match m {
        Err(e) => r == Err::<Id, Error>(e),
        Ok(meta) => match sys.spec_id(meta@) {
            Some(name) => r matches Ok(id) && id@ == name,
            None => r == Err::<Id, Error>(Error::UnknownState(meta)),
        },
    }
}

/// Looks up the identifier of a state that was read from storage.
pub fn resolve_id<S: IdSystem>(sys: &S, m: Result<Meta>) -> (r: Result<Id>)
    ensures
        id_outcome(sys, m, r),
{
    match m {
        Err(e) => Err(e),
        Ok(meta) => {
            if sys.has_block_meta(meta) {
                Ok(sys.block_meta_to_id(meta))
            } else {
                Err(Error::UnknownState(meta))
            }
        },
    }
}

/// A current position on top of a block storage `I`. The cursor stores
/// nothing of its own: every read and write is one call into the storage
/// at the current position.
#[derive(Debug)]
pub struct Cursor<I> {
    inner: I,
    pos: Pos,
}

impl<I> Cursor<I> {
    /// The storage under the cursor.
    pub closed spec fn spec_inner(&self) -> I {
        self.inner
    }

    /// The current position.
    pub closed spec fn spec_position(&self) -> Pos {
        self.pos
    }

    /// A cursor over `inner`, at the origin.
    pub fn new(inner: I) -> (c: Cursor<I>)
        ensures
            c.spec_inner() == inner,
            c.spec_position().repr() == 0,
    {
        Cursor { inner, pos: Pos::from_u64_repr(0) }
    }

    /// Gives the storage back.
    pub fn into_inner(self) -> (inner: I)
        ensures
            inner == self.spec_inner(),
    {
        self.inner
    }

    /// The current position.
    pub fn position(&self) -> (pos: Pos)
        ensures
            pos == self.spec_position(),
    {
        self.pos
    }

    /// Moves to `pos`, whatever position it is.
    pub fn set_position(&mut self, pos: Pos)
        ensures
            final(self).spec_position() == pos,
            final(self).spec_inner() == old(self).spec_inner(),
    {
        self.pos = pos;
    }
}

impl<I: Clone> Clone for Cursor<I> {
    /// A cursor at the same position, over a copy of the storage.
    fn clone(&self) -> (c: Cursor<I>)
        ensures
            c.spec_position() == self.spec_position(),
    {
        Cursor { inner: self.inner.clone(), pos: self.pos }
    }
}

impl<I: ReadExact> Cursor<I> {
    /// Moves to `pos` and reads the state there.
    pub fn get_block_meta(&mut self, pos: Pos) -> (r: Result<Meta>)
        ensures
            final(self).spec_position() == pos,
            final(self).spec_inner() == old(self).spec_inner(),
            old(self).spec_inner().read_exact_outcome(pos, r),
    {
        self.set_position(pos);
        self.read_block()
    }
}

impl<I: ReadExact> Read for Cursor<I> {
    open spec fn read_outcome(&self, r: Result<Meta>) -> bool {
        self.spec_inner().read_exact_outcome(self.spec_position(), r)
    }

    open spec fn check_outcome(&self, r: Result<bool>) -> bool {
        self.spec_inner().contain_exact_outcome(self.spec_position(), r)
    }

    fn read_block(&self) -> (r: Result<Meta>) {
        self.inner.read_block_exact(self.pos)
    }

    fn check_current_block(&self) -> (r: Result<bool>) {
        self.inner.contain_block_exact(self.pos)
    }
}

impl<I: WriteExact> Cursor<I> {
    /// Moves to `pos` and writes `meta` there.
    pub fn set_block_meta(&mut self, pos: Pos, meta: Meta) -> (r: Result<()>)
        ensures
            final(self).spec_position() == pos,
            old(self).spec_inner().write_exact_outcome(pos, meta, &final(self).spec_inner(), r),
    {
        self.set_position(pos);
        self.write_block(meta)
    }
}

impl<I: WriteExact> Write for Cursor<I> {
    open spec fn write_outcome(&self, new_meta: Meta, after: &Self, r: Result<()>) -> bool {
        &&& after.spec_position() == self.spec_position()
        &&& self.spec_inner().write_exact_outcome(
            self.spec_position(),
            new_meta,
            &after.spec_inner(),
            r,
        )
    }

    open spec fn flush_outcome(&self, after: &Self, r: Result<()>) -> bool {
        &&& after.spec_position() == self.spec_position()
        &&& self.spec_inner().flush_exact_outcome(&after.spec_inner(), r)
    }

    fn write_block(&mut self, new_meta: Meta) -> (r: Result<()>) {
        self.inner.write_block_exact(self.pos, new_meta)
    }

    fn flush_block(&mut self) -> (r: Result<()>) {
        self.inner.flush_block()
    }
}

impl<I: IdOperate + ReadExact> Cursor<I> {
    /// Moves to `pos` and gives the identifier of the state there. A state
    /// that the storage's table does not know is an error, not a panic.
    pub fn get_block_id(&mut self, pos: Pos) -> (r: Result<Id>)
        ensures
            final(self).spec_position() == pos,
            final(self).spec_inner() == old(self).spec_inner(),
            exists|m: Result<Meta>, sys: &I::System|
                (#[trigger] old(self).spec_inner().read_exact_outcome(pos, m)) && (
                #[trigger] old(self).spec_inner().id_system_outcome(sys)) && id_outcome(sys, m, r),
    {
        let m = self.get_block_meta(pos);
        resolve_id(self.inner.block_id_system(), m)
    }
}

/// What writing the state of an identifier gives, when the storage hands
/// out the table `sys`: an identifier that the table does not know is an
/// error, and the cursor is as it was; any other is written as its state
/// at `pos`, to which the cursor moves.
pub open spec fn set_id_outcome<I: IdOperate + WriteExact>(
    before: &Cursor<I>,
    after: &Cursor<I>,
    sys: &I::System,
    pos: Pos,
    id: Seq<char>,
    r: Result<()>,
) -> bool {
    match sys.spec_meta(id) {
        None => r == Err::<(), Error>(Error::UnknownId) && *after == *before,
        Some(state) => after.spec_position() == pos && exists|meta: Meta|
            meta@ == state && #[trigger] before.spec_inner().write_exact_outcome(
                pos,
                meta,
                &after.spec_inner(),
                r,
            ),
    }
}

impl<I: IdOperate + WriteExact> Cursor<I> {
    /// Moves to `pos` and writes the state of `id` there. An identifier that
    /// the storage's table does not know is an error; the cursor then stays
    /// where it was and nothing is written.
    pub fn set_block_id(&mut self, pos: Pos, id: Id) -> (r: Result<()>)
        ensures
            exists|sys: &I::System|
                (#[trigger] old(self).spec_inner().id_system_outcome(sys)) && set_id_outcome(
                    old(self),
                    final(self),
                    sys,
                    pos,
                    id@,
                    r,
                ),
    {
        let sys = self.inner.block_id_system();
        assert(old(self).spec_inner().id_system_outcome(sys));
        if !sys.has_block_id(Id::new(id.as_str())) {
            return Err(Error::UnknownId);
        }
        let meta = sys.block_id_to_meta(id);
        self.set_block_meta(pos, meta)
    }
}

impl<I> Seek for Cursor<I> {
    open spec fn seek_outcome(&self, from: SeekFrom, after: &Self, r: Result<()>) -> bool {
        &&& r is Ok
        &&& after.spec_position().repr() == from.target(self.spec_position())
        &&& after.spec_inner() == self.spec_inner()
    }

    fn seek_block(&mut self, from: SeekFrom) -> (r: Result<()>) {
        let pos = match from {
            SeekFrom::Absolute(pos) => pos,
            SeekFrom::Relative(dx, dy, dz) => {
                let (x, y, z) = self.pos.to_xyz();
                Pos::from_wide_xyz(x as i64 + dx as i64, y as i64 + dy as i64, z as i64 + dz as i64)
            },
        };
        self.set_position(pos);
        Ok(())
    }
}

/// What a registry holds: the first state it hands out, the identifiers in
/// the order in which they were registered, and the states that are flagged
/// as needing a buffer. The identifier at index `i` has the state `base + i`.
pub struct RegistryModel {
    pub base: u16,
    pub ids: Seq<Seq<char>>,
    pub buffered: Set<u16>,
}

impl RegistryModel {
    /// Every identifier has a state that fits 16 bits, and none is
    /// registered twice.
    pub open spec fn wf(self) -> bool {
        &&& self.base + self.ids.len() <= 0x1_0000
        &&& self.ids.no_duplicates()
    }

    /// Whether a state is left for one more identifier.
    pub open spec fn has_room(self) -> bool {
        self.base + self.ids.len() < 0x1_0000
    }

    /// The identifier of `state`, if it is registered.
    pub open spec fn id_of(self, state: u16) -> Option<Seq<char>> {
        if self.base <= state < self.base + self.ids.len() {
            Some(self.ids[state - self.base])
        } else {
            None
        }
    }

    /// The state of `id`, if it is registered.
    pub open spec fn state_of(self, id: Seq<char>) -> Option<u16> {
        if self.ids.contains(id) {
            Some((self.base + self.ids.index_of(id)) as u16)
        } else {
            None
        }
    }

    /// Whether blocks in `state` carry a buffer.
    pub open spec fn needs_buffer(self, state: u16) -> bool {
        self.buffered.contains(state)
    }

    /// The registry with the flag of `state` set to `required`.
    pub open spec fn set_buffer_requirement(self, state: u16, required: bool) -> RegistryModel {
        RegistryModel {
            base: self.base,
            ids: self.ids,
            buffered: if required {
                self.buffered.insert(state)
            } else {
                self.buffered.remove(state)
            },
        }
    }

    /// Registering `id`: a new identifier is appended and gets the next
    /// state, a known one keeps its state; either way the state's flag
    /// becomes `needs_buffer`.
    pub open spec fn register(self, id: Seq<char>, needs_buffer: bool) -> (RegistryModel, u16) {
        let (ids, state) = match self.state_of(id) {
            Some(state) => (self.ids, state),
            None => (self.ids.push(id), (self.base + self.ids.len()) as u16),
        };
        (RegistryModel { base: self.base, ids, buffered: self.buffered }.set_buffer_requirement(
            state,
            needs_buffer,
        ), state)
    }

    /// In a well-formed registry the state of an identifier is the position
    /// at which the identifier stands, counted from the base.
    pub proof fn lemma_state_of_index(self, i: int)
        requires
            self.wf(),
            0 <= i < self.ids.len(),
        ensures
            self.state_of(self.ids[i]) == Some((self.base + i) as u16),
            self.id_of((self.base + i) as u16) == Some(self.ids[i]),
    {
        let id = self.ids[i];
        assert(self.ids.contains(id));
        let k = self.ids.index_of(id);
        assert(self.ids[k] == id);
    }

    /// The two lookups are inverse to each other: `state` has the
    /// identifier `id` exactly if `id` has the state `state`.
    pub proof fn lemma_lookups_agree(self, id: Seq<char>, state: u16)
        requires
            self.wf(),
        ensures
            self.id_of(state) == Some(id) <==> self.state_of(id) == Some(state),
    {
        if self.id_of(state) == Some(id) {
            self.lemma_state_of_index(state - self.base);
        }
        if self.state_of(id) == Some(state) {
            let k = self.ids.index_of(id);
            assert(self.ids[k] == id);
            self.lemma_state_of_index(k);
        }
    }

    /// After an identifier is registered, each lookup finds the other half
    /// of the pair: the state leads to the identifier and the identifier to
    /// the state. The registry stays well-formed.
    pub proof fn lemma_register_then_lookup(self, id: Seq<char>, needs_buffer: bool)
        requires
            self.wf(),
            self.state_of(id) is Some || self.has_room(),
        ensures
            self.register(id, needs_buffer).0.wf(),
            self.register(id, needs_buffer).0.id_of(self.register(id, needs_buffer).1) == Some(id),
            self.register(id, needs_buffer).0.state_of(id) == Some(
                self.register(id, needs_buffer).1,
            ),
            self.register(id, needs_buffer).0.needs_buffer(self.register(id, needs_buffer).1)
                == needs_buffer,
    {
        let (after, state) = self.register(id, needs_buffer);
        match self.state_of(id) {
            Some(s) => {
                self.lemma_lookups_agree(id, s);
            },
            None => {
                let n = self.ids.len() as int;
                assert(after.ids == self.ids.push(id));
                assert(after.ids[n] == id);
                assert(after.ids.no_duplicates()) by {
                    assert forall|i: int, j: int|
                        0 <= i < after.ids.len() && 0 <= j < after.ids.len() && i
                            != j implies after.ids[i] != after.ids[j] by {
                        if i < n && j < n {
                            assert(self.ids[i] != self.ids[j]);
                        } else if i < n {
                            assert(self.ids.contains(self.ids[i]));
                        } else {
                            assert(self.ids.contains(self.ids[j]));
                        }
                    }
                }
                after.lemma_state_of_index(n);
            },
        }
    }

    /// Registering an identifier a second time gives the state of the first
    /// time and adds no identifier; the flag of the second registration
    /// replaces that of the first.
    pub proof fn lemma_register_again(self, id: Seq<char>, first: bool, second: bool)
        requires
            self.wf(),
            self.state_of(id) is Some || self.has_room(),
        ensures
            ({
                let (once, state) = self.register(id, first);
                let (twice, again) = once.register(id, second);
                &&& again == state
                &&& twice.ids == once.ids
                &&& twice.needs_buffer(state) == second
            }),
    {
        self.lemma_register_then_lookup(id, first);
    }

    /// Registration only appends: whoever was registered before keeps the
    /// state, and every state keeps its identifier.
    pub proof fn lemma_register_keeps_others(
        self,
        id: Seq<char>,
        needs_buffer: bool,
        other: Seq<char>,
    )
        requires
            self.wf(),
            self.state_of(id) is Some || self.has_room(),
            self.state_of(other) is Some,
        ensures
            self.register(id, needs_buffer).0.state_of(other) == self.state_of(other),
    {
        let (after, state) = self.register(id, needs_buffer);
        self.lemma_register_then_lookup(id, needs_buffer);
        if self.state_of(id) is None {
            let k = self.ids.index_of(other);
            assert(self.ids[k] == other);
            self.lemma_state_of_index(k);
            assert(after.ids[k] == other);
            after.lemma_state_of_index(k);
        }
    }
}

/// The registry of block kinds: it hands out states in the order in which
/// identifiers are registered, starting at a base, and remembers which
/// states need a buffer. It only grows: an identifier keeps its state for
/// as long as the registry lives.
#[derive(Debug)]
pub struct HashSystem {
    base: u16,
    names: Vec<String>,
    buffered: HashSet<u16>,
}

impl View for HashSystem {
    type V = RegistryModel;

    closed spec fn view(&self) -> RegistryModel {
        RegistryModel {
            base: self.base,
            ids: self.names@.map_values(|name: String| name@),
            buffered: self.buffered@,
        }
    }
}

impl HashSystem {
    #[verifier::type_invariant]
    spec fn well_formed(&self) -> bool {
        self@.wf()
    }

    /// An empty registry whose first state is 1; state 0 stays reserved
    /// for the absence of a block.
    pub fn new() -> (sys: HashSystem)
        ensures
            sys@.wf(),
            sys@.base == 1,
            sys@.ids == Seq::<Seq<char>>::empty(),
            sys@.buffered == Set::<u16>::empty(),
    {
        HashSystem::with_base(1)
    }

    /// An empty registry whose first state is `base`.
    pub fn with_base(base: u16) -> (sys: HashSystem)
        ensures
            sys@.wf(),
            sys@.base == base,
            sys@.ids == Seq::<Seq<char>>::empty(),
            sys@.buffered == Set::<u16>::empty(),
    {
        let names: Vec<String> = Vec::new();
        assert(names@.map_values(|name: String| name@) =~= Seq::<Seq<char>>::empty());
        HashSystem { base, names, buffered: HashSet::new() }
    }

    /// Whether a state is left for one more identifier.
    pub fn has_room(&self) -> (b: bool)
        ensures
            self@.wf(),
            b == self@.has_room(),
    {
        proof {
            use_type_invariant(self);
        }
        (self.base as usize) + self.names.len() < 0x1_0000
    }

    /// The state of `id`, or `None` if it is not registered.
    pub fn id_to_state(&self, id: &Id) -> (r: Option<Meta>)
        ensures
            self@.wf(),
            match r {
                Some(meta) => self@.state_of(id@) == Some(meta@),
                None => self@.state_of(id@) is None,
            },
    {
        proof {
            use_type_invariant(self);
        }
        let mut i: usize = 0;
        while i < self.names.len()
            invariant
                self@.wf(),
                i <= self.names@.len(),
                self@.ids.len() == self.names@.len(),
                forall|j: int| 0 <= j < self.names@.len() ==> self@.ids[j] == self.names@[j]@,
                forall|j: int| 0 <= j < i ==> self@.ids[j] != id@,
            decreases self.names@.len() - i,
        {
            if str_eq(self.names[i].as_str(), id.as_str()) {
                proof {
                    self@.lemma_state_of_index(i as int);
                }
                let state: usize = self.base as usize + i;
                return Some(Meta::new(state as u16));
            }
            i += 1;
        }
        None
    }

    /// The identifier of `state`, or `None` if it is not registered.
    pub fn state_to_id(&self, state: Meta) -> (r: Option<Id>)
        ensures
            self@.wf(),
            match r {
                Some(id) => self@.id_of(state@) == Some(id@),
                None => self@.id_of(state@) is None,
            },
    {
        proof {
            use_type_invariant(self);
        }
        let n: u16 = state.to_u16();
        if n >= self.base && ((n - self.base) as usize) < self.names.len() {
            Some(Id::new(self.names[(n - self.base) as usize].as_str()))
        } else {
            None
        }
    }

    /// Whether blocks in `state` carry a buffer.
    pub fn needs_buffer(&self, state: Meta) -> (b: bool)
        ensures
            b == self@.needs_buffer(state@),
    {
        let n: u16 = state.to_u16();
        self.buffered.contains(&n)
    }

    /// A fresh, empty buffer if blocks in `state` carry one, else `None`.
    pub fn buffer_template(&self, state: Meta) -> (r: Option<Vec<u8>>)
        ensures
            match r {
                Some(buffer) => self@.needs_buffer(state@) && buffer@ == Seq::<u8>::empty(),
                None => !self@.needs_buffer(state@),
            },
    {
        if self.needs_buffer(state) {
            Some(Vec::new())
        } else {
            None
        }
    }

    /// Says whether blocks in `state` carry a buffer. Saying the same twice
    /// changes nothing.
    pub fn set_buffer_requirement(&mut self, state: Meta, required: bool)
        ensures
            final(self)@ == old(self)@.set_buffer_requirement(state@, required),
    {
        proof {
            use_type_invariant(&*self);
        }
        let n: u16 = state.to_u16();
        // The set is taken out, changed and put back, so that the registry
        // is a valid one at every step.
        let mut buffered: HashSet<u16> = HashSet::new();
        std::mem::swap(&mut self.buffered, &mut buffered);
        if required {
            buffered.insert(n);
        } else {
            buffered.remove(&n);
        }
        std::mem::swap(&mut self.buffered, &mut buffered);
    }

    /// Appends `name`, which gets the next state.
    fn push_name(&mut self, name: String)
        requires
            old(self)@.has_room(),
            !old(self)@.ids.contains(name@),
        ensures
            final(self)@ == (RegistryModel {
                base: old(self)@.base,
                ids: old(self)@.ids.push(name@),
                buffered: old(self)@.buffered,
            }),
    {
        proof {
            use_type_invariant(&*self);
            old(self)@.lemma_register_then_lookup(name@, false);
        }
        let ghost before = self.names@;
        let mut names: Vec<String> = Vec::new();
        assert(names@.map_values(|name: String| name@) =~= Seq::<Seq<char>>::empty());
        std::mem::swap(&mut self.names, &mut names);
        names.push(name);
        assert(names@.map_values(|name: String| name@) =~= before.map_values(
            |name: String| name@,
        ).push(name@));
        std::mem::swap(&mut self.names, &mut names);
    }

    /// Registers `id` and says whether its blocks carry a buffer. A new
    /// identifier gets the next state; a known one keeps its state, and
    /// only the flag is updated.
    ///
    /// The registry must have room for a new identifier; `try_register`
    /// has no such condition.
    pub fn register(&mut self, id: Id, needs_buffer: bool) -> (meta: Meta)
        requires
            old(self)@.state_of(id@) is Some || old(self)@.has_room(),
        ensures
            final(self)@.wf(),
            (final(self)@, meta@) == old(self)@.register(id@, needs_buffer),
            final(self)@.id_of(meta@) == Some(id@),
            final(self)@.state_of(id@) == Some(meta@),
            final(self)@.needs_buffer(meta@) == needs_buffer,
    {
        proof {
            use_type_invariant(&*self);
            old(self)@.lemma_register_then_lookup(id@, needs_buffer);
        }
        let meta = match self.id_to_state(&id) {
            Some(meta) => meta,
            None => {
                let state: usize = self.base as usize + self.names.len();
                self.push_name(id.to_string());
                Meta::new(state as u16)
            },
        };
        self.set_buffer_requirement(meta, needs_buffer);
        meta
    }

    /// Registers `id` as `register` does, or gives `None` and changes
    /// nothing where `id` is new and every state is taken.
    pub fn try_register(&mut self, id: Id, needs_buffer: bool) -> (r: Option<Meta>)
        ensures
            final(self)@.wf(),
            match r {
                Some(meta) => {
                    &&& old(self)@.state_of(id@) is Some || old(self)@.has_room()
                    &&& (final(self)@, meta@) == old(self)@.register(id@, needs_buffer)
                },
                None => {
                    &&& old(self)@.state_of(id@) is None
                    &&& !old(self)@.has_room()
                    &&& final(self)@ == old(self)@
                },
            },
    {
        if self.has_room() || self.id_to_state(&id).is_some() {
            Some(self.register(id, needs_buffer))
        } else {
            None
        }
    }

    /// Registers `id` for blocks that carry no buffer; see `register`.
    pub fn register_block(&mut self, id: Id) -> (meta: Meta)
        requires
            old(self)@.state_of(id@) is Some || old(self)@.has_room(),
        ensures
            final(self)@.wf(),
            (final(self)@, meta@) == old(self)@.register(id@, false),
            final(self)@.id_of(meta@) == Some(id@),
            final(self)@.state_of(id@) == Some(meta@),
            !final(self)@.needs_buffer(meta@),
    {
        self.register(id, false)
    }
}

impl Default for HashSystem {
    /// The same as `HashSystem::new`.
    fn default() -> (sys: HashSystem)
        ensures
            sys@.wf(),
            sys@.base == 1,
            sys@.ids == Seq::<Seq<char>>::empty(),
            sys@.buffered == Set::<u16>::empty(),
    {
        HashSystem::new()
    }
}

impl IdSystem for HashSystem {
    open spec fn spec_id(&self, state: u16) -> Option<Seq<char>> {
        self@.id_of(state)
    }

    open spec fn spec_meta(&self, id: Seq<char>) -> Option<u16> {
        self@.state_of(id)
    }

    fn has_block_meta(&self, meta: Meta) -> (b: bool) {
        self.state_to_id(meta).is_some()
    }

    fn block_meta_to_id(&self, meta: Meta) -> (id: Id) {
        match self.state_to_id(meta) {
            Some(id) => id,
            None => vstd::pervasive::unreached(),
        }
    }

    fn has_block_id(&self, id: Id) -> (b: bool) {
        self.id_to_state(&id).is_some()
    }

    fn block_id_to_meta(&self, id: Id) -> (meta: Meta) {
        match self.id_to_state(&id) {
            Some(meta) => meta,
            None => vstd::pervasive::unreached(),
        }
    }
}

/// The identifier of air.
pub const ID_BLOCK_AIR: &'static str = "minecraft:air";

/// The identifier of stone.
pub const ID_BLOCK_STONE: &'static str = "minecraft:stone";

/// The identifier of sponge.
pub const ID_BLOCK_SPONGE: &'static str = "minecraft:sponge";

/// A registry with the blocks that every world knows: air, stone and
/// sponge, in this order, from state 1 on; none of them carries a buffer.
pub fn global_id_system() -> (sys: HashSystem)
    ensures
        sys@.wf(),
        sys@.base == 1,
        sys@.ids == seq!["minecraft:air"@, "minecraft:stone"@, "minecraft:sponge"@],
        sys@.buffered == Set::<u16>::empty(),
{
    proof {
        reveal_strlit("minecraft:air");
        reveal_strlit("minecraft:stone");
        reveal_strlit("minecraft:sponge");
    }
    let mut ans = HashSystem::new();
    ans.register_block(Id::new("minecraft:air"));
    assert(ans@.ids =~= seq!["minecraft:air"@]);
    assert("minecraft:air"@.len() != "minecraft:stone"@.len());
    ans.register_block(Id::new("minecraft:stone"));
    assert(ans@.ids =~= seq!["minecraft:air"@, "minecraft:stone"@]);
    assert("minecraft:air"@.len() != "minecraft:sponge"@.len());
    assert("minecraft:stone"@.len() != "minecraft:sponge"@.len());
    ans.register_block(Id::new("minecraft:sponge"));
    assert(ans@.buffered =~= Set::<u16>::empty());
    ans
}

} // verus!
