//! The object heap: a slot table of strings, collected by mark and sweep.
//!
//! A handle is the index of a slot. Allocation fills the slot that was freed
//! last, or a new slot at the end of the table. The heap keeps a count of the
//! bytes it holds and collects before an allocation that would take the count
//! over a threshold. What survives a collection is what the root set names.

use crate::table::{key_eq_is_identity, Hashable};
use vstd::prelude::*;
use vstd::std_specs::cmp::PartialEqSpecImpl;
use vstd::string::StringSliceAdditionalSpecFns;
use vstd::utf8::encode_utf8;

verus! {

/// The bytes that the heap counts for an object besides its text.
pub const OBJECT_HEADER_SIZE: usize = 56;

/// The threshold of a new heap: one mebibyte.
pub const INITIAL_GC_THRESHOLD: usize = 1048576;

/// After a collection the threshold is the bytes held times this factor.
pub const HEAP_GROW_FACTOR: usize = 2;

/// The most bytes that a heap holds: half of what a `usize` can count, so
/// that the threshold after a collection can be counted too.
pub const HEAP_LIMIT: usize = usize::MAX / 2;

/// A handle to a heap object: the index of its slot. Two handles are equal
/// when they name the same slot.
#[derive(Debug, Clone, Copy, Eq)]
pub struct ObjectRef(pub usize);

impl PartialEq for ObjectRef {
    fn eq(&self, other: &Self) -> (equal: bool) {
        self.0 == other.0
    }
}

impl PartialEqSpecImpl for ObjectRef {
    open spec fn obeys_eq_spec() -> bool {
        true
    }

    open spec fn eq_spec(&self, other: &Self) -> bool {
        self.0 == other.0
    }
}

impl Hashable for ObjectRef {
    /// The hash of a handle: the low 32 bits of its slot index.
    open spec fn hash_value(&self) -> u32 {
        self.0 as u32
    }

    fn hash(&self) -> (hash: u32) {
        #[verifier::truncate]
        (self.0 as u32)
    }
}

/// Handles can be the keys of a table: `==` on handles is defined and means
/// that the handles are the same.
pub proof fn lemma_handles_are_keys()
    ensures
        key_eq_is_identity::<ObjectRef>(),
{
}

#[derive(Debug, Clone, Copy, PartialEq, Eq, Structural)]
enum GcColor {
    White,
    Gray,
    Black,
}

/// What the collector keeps with each object: its colour.
pub struct GcHeader {
    marked: GcColor,
}

/// An object in a slot of the heap.
pub struct GcObject {
    header: GcHeader,
    pub data: ObjectData,
}

/// The kinds of object.
pub enum ObjectData {
    String(ObjString),
}

/// A string object: the text and its hash.
pub struct ObjString {
    hash: u32,
    data: String,
}

/// The 32-bit FNV-1a hash of a sequence of bytes.
pub open spec fn fnv1a(bytes: Seq<u8>) -> u32
    decreases bytes.len(),
{
    if bytes.len() == 0 {
        2166136261
    } else {
        (fnv1a(bytes.drop_last()) ^ (bytes.last() as u32)).wrapping_mul(16777619)
    }
}

/// The hash of a text: the FNV-1a hash of its UTF-8 bytes.
pub open spec fn string_hash(text: Seq<char>) -> u32 {
    fnv1a(encode_utf8(text))
}

/// The bytes that the heap counts for a string object.
pub open spec fn object_size(text: Seq<char>) -> nat {
    OBJECT_HEADER_SIZE as nat + encode_utf8(text).len()
}

impl View for ObjString {
    type V = Seq<char>;

    closed spec fn view(&self) -> Seq<char> {
        self.data@
    }
}

impl ObjString {
    #[verifier::type_invariant]
    spec fn inv(&self) -> bool {
        self.hash == string_hash(self.data@)
    }

    /// A string object that holds the text `s`.
    pub fn new(s: &str) -> (string: ObjString)
        ensures
            string@ == s@,
    {
        ObjString { hash: Self::calc_hash(s), data: s.to_owned() }
    }

    /// The text.
    pub fn as_str(&self) -> (text: &str)
        ensures
            text@ == self@,
    {
        self.data.as_str()
    }

    /// The length of the text in bytes.
    pub fn len(&self) -> (n: usize)
        ensures
            n == encode_utf8(self@).len(),
    {
        self.data.as_str().as_bytes().len()
    }

    /// The hash of the text.
    pub fn hash(&self) -> (hash: u32)
        ensures
            hash == string_hash(self@),
    {
        proof {
            use_type_invariant(self);
        }
        self.hash
    }

    fn calc_hash(key: &str) -> (hash: u32)
        ensures
            hash == string_hash(key@),
    {
        let bytes = key.as_bytes();
        let mut hash: u32 = 2166136261;
        let mut i: usize = 0;
        while i < bytes.len()
            invariant
                i <= bytes@.len(),
                hash == fnv1a(bytes@.take(i as int)),
            decreases bytes@.len() - i,
        {
            proof {
                assert(bytes@.take(i + 1).drop_last() =~= bytes@.take(i as int));
            }
            hash = (hash ^ (bytes[i] as u32)).wrapping_mul(16777619);
            i += 1;
        }
        proof {
            assert(bytes@.take(i as int) =~= bytes@);
        }
        hash
    }
}

impl GcObject {
    /// The text of the object.
    pub closed spec fn text(&self) -> Seq<char> {
        match self.data {
            ObjectData::String(s) => s@,
        }
    }
}

/// The heap.
pub struct ObjectHeap {
    objects: Vec<Option<GcObject>>,
    free_list: Vec<usize>,
    bytes_allocated: usize,
    next_gc: usize,
    gc_roots: Vec<ObjectRef>,
}

/// The mathematical value of an [`ObjectHeap`] between two operations.
pub struct HeapView {
    /// The slot table: the text of the object in each slot, if there is one.
    pub slots: Seq<Option<Seq<char>>>,
    /// The empty slots, the one freed last at the end.
    pub free_list: Seq<usize>,
    pub bytes_allocated: usize,
    /// The threshold: an allocation that would take `bytes_allocated` over it
    /// collects first.
    pub next_gc: usize,
    /// The root set.
    pub roots: Seq<ObjectRef>,
}

/// Counts of what a heap holds.
pub struct HeapStats {
    pub bytes_allocated: usize,
    pub next_gc: usize,
    pub total_slots: usize,
    pub live_objects: usize,
    pub free_slots: usize,
}

/// The bytes counted for the objects in the first `n` slots.
pub open spec fn size_upto(slots: Seq<Option<Seq<char>>>, n: int) -> nat
    decreases n,
{
    if n <= 0 {
        0
    } else {
        size_upto(slots, n - 1) + match slots[n - 1] {
            Some(text) => object_size(text),
            None => 0,
        }
    }
}

/// The number of objects in the first `n` slots.
pub open spec fn live_upto(slots: Seq<Option<Seq<char>>>, n: int) -> nat
    decreases n,
{
    if n <= 0 {
        0
    } else {
        live_upto(slots, n - 1) + if slots[n - 1] is Some {
            1nat
        } else {
            0nat
        }
    }
}

/// Whether one of the first `n` roots names the slot.
pub open spec fn rooted_among(roots: Seq<ObjectRef>, n: int, slot: int) -> bool {
    exists|k: int| 0 <= k < n && k < roots.len() && (#[trigger] roots[k]).0 == slot
}

/// The first `n` roots without `handle`, in their order.
pub open spec fn roots_without(roots: Seq<ObjectRef>, handle: ObjectRef, n: int) -> Seq<ObjectRef>
    decreases n,
{
    if n <= 0 {
        Seq::empty()
    } else if roots[n - 1] == handle {
        roots_without(roots, handle, n - 1)
    } else {
        roots_without(roots, handle, n - 1).push(roots[n - 1])
    }
}

impl HeapView {
    /// Whether the handle names a slot that holds an object.
    pub open spec fn resolves(self, handle: ObjectRef) -> bool {
        handle.0 < self.slots.len() && self.slots[handle.0 as int] is Some
    }

    /// The text of the object that the handle names.
    pub open spec fn text_of(self, handle: ObjectRef) -> Seq<char> {
        self.slots[handle.0 as int]->0
    }

    /// Whether the root set names the slot.
    pub open spec fn rooted(self, slot: int) -> bool {
        rooted_among(self.roots, self.roots.len() as int, slot)
    }

    /// The bytes counted for all objects.
    pub open spec fn total_size(self) -> nat {
        size_upto(self.slots, self.slots.len() as int)
    }

    /// What holds of a heap between two operations: the count of bytes is
    /// that of the objects held and within the limit, and the free list
    /// names each empty slot once and no other.
    pub open spec fn wf(self) -> bool {
        &&& self.bytes_allocated == self.total_size()
        &&& self.bytes_allocated <= HEAP_LIMIT
        &&& self.slots.len() <= usize::MAX
        &&& self.free_list.no_duplicates()
        &&& forall|k: int|
            0 <= k < self.free_list.len() ==> (#[trigger] self.free_list[k]) < self.slots.len()
                && self.slots[self.free_list[k] as int] is None
        &&& forall|i: int|
            0 <= i < self.slots.len() && (#[trigger] self.slots[i]) is None
                ==> self.free_list.contains(i as usize)
    }

    /// The slot table after a collection: an object stays if the root set
    /// names its slot.
    pub open spec fn survivors(self) -> Seq<Option<Seq<char>>> {
        Seq::new(
            self.slots.len(),
            |i: int|
                if self.rooted(i) {
                    self.slots[i]
                } else {
                    None
                },
        )
    }

    /// The slots among the first `n` that a collection frees, in rising order.
    pub open spec fn freed_upto(self, n: int) -> Seq<usize>
        decreases n,
    {
        if n <= 0 {
            Seq::empty()
        } else if self.slots[n - 1] is Some && !self.rooted(n - 1) {
            self.freed_upto(n - 1).push((n - 1) as usize)
        } else {
            self.freed_upto(n - 1)
        }
    }

    /// The heap after a collection: the objects that the root set does not
    /// name are gone, their slots are at the end of the free list in rising
    /// order, the count of bytes is that of the objects that stay, and the
    /// threshold is twice the count.
    pub open spec fn collected(self) -> HeapView {
        let slots = self.survivors();
        let held = size_upto(slots, slots.len() as int);
        HeapView {
            slots,
            free_list: self.free_list + self.freed_upto(self.slots.len() as int),
            bytes_allocated: held as usize,
            next_gc: (held * HEAP_GROW_FACTOR) as usize,
            roots: self.roots,
        }
    }

    /// The heap with a new object of text `text`, and the object's handle: in
    /// the slot at the end of the free list, or in a new slot at the end of
    /// the table if no slot is free.
    pub open spec fn placed(self, text: Seq<char>) -> (HeapView, ObjectRef) {
        let bytes_allocated = (self.bytes_allocated + object_size(text)) as usize;
        if self.free_list.len() > 0 {
            let slot = self.free_list.last();
            (
                HeapView {
                    slots: self.slots.update(slot as int, Some(text)),
                    free_list: self.free_list.drop_last(),
                    bytes_allocated,
                    ..self
                },
                ObjectRef(slot),
            )
        } else {
            (
                HeapView { slots: self.slots.push(Some(text)), bytes_allocated, ..self },
                ObjectRef(self.slots.len() as usize),
            )
        }
    }

    /// Whether an allocation of `size` bytes collects first.
    pub open spec fn collects_before(self, size: nat) -> bool {
        self.bytes_allocated + size > self.next_gc
    }

    /// The heap after the allocation of a string of text `text`, and the
    /// string's handle.
    pub open spec fn allocated(self, text: Seq<char>) -> (HeapView, ObjectRef) {
        if self.collects_before(object_size(text)) {
            self.collected().placed(text)
        } else {
            self.placed(text)
        }
    }

    /// The heap with one more root.
    pub open spec fn with_root(self, handle: ObjectRef) -> HeapView {
        HeapView { roots: self.roots.push(handle), ..self }
    }

    /// The heap without the root `handle`, wherever it stood in the root set.
    pub open spec fn without_root(self, handle: ObjectRef) -> HeapView {
        HeapView { roots: roots_without(self.roots, handle, self.roots.len() as int), ..self }
    }
}

/// The text in each slot of a table of objects.
spec fn texts(objects: Seq<Option<GcObject>>) -> Seq<Option<Seq<char>>> {
    Seq::new(
        objects.len(),
        |i: int|
            match objects[i] {
                Some(object) => Some(object.text()),
                None => None,
            },
    )
}

/// The colour of the object in slot `i`.
spec fn colour(objects: Seq<Option<GcObject>>, i: int) -> GcColor {
    objects[i]->0.header.marked
}

/// Whether no object of the table has the colour `c`.
spec fn none_coloured(objects: Seq<Option<GcObject>>, c: GcColor) -> bool {
    forall|i: int| 0 <= i < objects.len() && (#[trigger] objects[i]) is Some ==> colour(objects, i) != c
}

/// Whether every object of the table is white.
spec fn all_white(objects: Seq<Option<GcObject>>) -> bool {
    forall|i: int|
        0 <= i < objects.len() && (#[trigger] objects[i]) is Some ==> colour(objects, i)
            == GcColor::White
}

/// The white objects among the first `n` slots, in rising order.
spec fn whites_upto(objects: Seq<Option<GcObject>>, n: int) -> Seq<usize>
    decreases n,
{
    if n <= 0 {
        Seq::empty()
    } else if objects[n - 1] is Some && colour(objects, n - 1) == GcColor::White {
        whites_upto(objects, n - 1).push((n - 1) as usize)
    } else {
        whites_upto(objects, n - 1)
    }
}

impl View for ObjectHeap {
    type V = HeapView;

    closed spec fn view(&self) -> HeapView {
        HeapView {
            slots: texts(self.objects@),
            free_list: self.free_list@,
            bytes_allocated: self.bytes_allocated,
            next_gc: self.next_gc,
            roots: self.gc_roots@,
        }
    }
}

impl ObjectHeap {
    /// What holds of a heap between two operations: see [`HeapView::wf`].
    /// Besides, every object is white.
    pub closed spec fn wf(&self) -> bool {
        self@.wf() && all_white(self.objects@)
    }

    /// An empty heap, with the initial threshold and no roots.
    pub fn new() -> (heap: ObjectHeap)
        ensures
            heap.wf(),
            heap@ == (HeapView {
                slots: Seq::empty(),
                free_list: Seq::empty(),
                bytes_allocated: 0,
                next_gc: INITIAL_GC_THRESHOLD,
                roots: Seq::empty(),
            }),
    {
        let heap = ObjectHeap {
            objects: Vec::new(),
            free_list: Vec::new(),
            bytes_allocated: 0,
            next_gc: INITIAL_GC_THRESHOLD,
            gc_roots: Vec::new(),
        };
        proof {
            assert(heap@.slots =~= Seq::empty());
        }
        heap
    }

    fn mark_object(&mut self, obj_ref: ObjectRef)
        ensures
            final(self)@ == old(self)@,
            final(self).objects@.len() == old(self).objects@.len(),
            forall|i: int|
                0 <= i < old(self).objects@.len() && (#[trigger] old(self).objects@[i]) is Some
                    ==> final(self).objects@[i] is Some && colour(final(self).objects@, i)
                    == if i == obj_ref.0 && colour(old(self).objects@, i) == GcColor::White {
                    GcColor::Gray
                } else {
                    colour(old(self).objects@, i)
                },
    {
        if obj_ref.0 < self.objects.len() {
            match &mut self.objects[obj_ref.0] {
                Some(obj) => {
                    if obj.header.marked == GcColor::White {
                        obj.header.marked = GcColor::Gray;
                    }
                },
                None => {},
            }
        }
        proof {
            assert(self@.slots =~= old(self)@.slots);
        }
    }

    fn blacken_object(&mut self, obj_ref: ObjectRef)
        ensures
            final(self)@ == old(self)@,
            final(self).objects@.len() == old(self).objects@.len(),
            forall|i: int|
                0 <= i < old(self).objects@.len() && (#[trigger] old(self).objects@[i]) is Some
                    ==> final(self).objects@[i] is Some && colour(final(self).objects@, i)
                    == if i == obj_ref.0 {
                    GcColor::Black
                } else {
                    colour(old(self).objects@, i)
                },
    {
        if obj_ref.0 < self.objects.len() {
            match &mut self.objects[obj_ref.0] {
                Some(obj) => {
                    // A string refers to no other object: there is nothing to trace.
                    obj.header.marked = GcColor::Black;
                },
                None => {},
            }
        }
        proof {
            assert(self@.slots =~= old(self)@.slots);
        }
    }

    fn mark_roots(&mut self)
        requires
            all_white(old(self).objects@),
        ensures
            final(self)@ == old(self)@,
            final(self).objects@.len() == old(self).objects@.len(),
            forall|i: int|
                0 <= i < old(self).objects@.len() && (#[trigger] old(self).objects@[i]) is Some
                    ==> final(self).objects@[i] is Some && colour(final(self).objects@, i)
                    == if old(self)@.rooted(i) {
                    GcColor::Gray
                } else {
                    GcColor::White
                },
    {
        let mut k: usize = 0;
        while k < self.gc_roots.len()
            invariant
                self@ == old(self)@,
                self.gc_roots@ == old(self).gc_roots@,
                self.objects@.len() == old(self).objects@.len(),
                k <= self.gc_roots@.len(),
                forall|i: int|
                    0 <= i < old(self).objects@.len() && (#[trigger] old(self).objects@[i]) is Some
                        ==> self.objects@[i] is Some && colour(self.objects@, i)
                        == if rooted_among(self.gc_roots@, k as int, i) {
                        GcColor::Gray
                    } else {
                        GcColor::White
                    },
            decreases self.gc_roots@.len() - k,
        {
            let root = self.gc_roots[k];
            let ghost before = self.objects@;
            self.mark_object(root);
            proof {
                assert forall|i: int|
                    0 <= i < old(self).objects@.len() && (#[trigger] old(self).objects@[i]) is Some
                    implies self.objects@[i] is Some && colour(self.objects@, i)
                    == if rooted_among(self.gc_roots@, k + 1, i) {
                    GcColor::Gray
                } else {
                    GcColor::White
                } by {
                    assert(before[i] is Some);
                    if rooted_among(self.gc_roots@, k as int, i) {
                        let j = choose|j: int|
                            0 <= j < k && j < self.gc_roots@.len() && (
                            #[trigger] self.gc_roots@[j]).0 == i;
                        assert(self.gc_roots@[j].0 == i);
                    }
                    if i == root.0 {
                        assert(self.gc_roots@[k as int].0 == i);
                    }
                    if rooted_among(self.gc_roots@, k + 1, i) && i != root.0 {
                        let j = choose|j: int|
                            0 <= j < k + 1 && j < self.gc_roots@.len() && (
                            #[trigger] self.gc_roots@[j]).0 == i;
                        assert(j < k);
                    }
                }
            }
            k += 1;
        }
    }

    fn find_gray_object(&self) -> (found: Option<ObjectRef>)
        ensures
            match found {
                Some(handle) => {
                    &&& handle.0 < self.objects@.len()
                    &&& self.objects@[handle.0 as int] is Some
                    &&& colour(self.objects@, handle.0 as int) == GcColor::Gray
                    &&& forall|j: int|
                        0 <= j < handle.0 && (#[trigger] self.objects@[j]) is Some ==> colour(
                            self.objects@,
                            j,
                        ) != GcColor::Gray
                },
                None => none_coloured(self.objects@, GcColor::Gray),
            },
    {
        let mut index: usize = 0;
        while index < self.objects.len()
            invariant
                index <= self.objects@.len(),
                forall|j: int|
                    0 <= j < index && (#[trigger] self.objects@[j]) is Some ==> colour(
                        self.objects@,
                        j,
                    ) != GcColor::Gray,
            decreases self.objects@.len() - index,
        {
            match &self.objects[index] {
                Some(obj) => {
                    if obj.header.marked == GcColor::Gray {
                        return Some(ObjectRef(index));
                    }
                },
                None => {},
            }
            index += 1;
        }
        None
    }

    fn trace_references(&mut self)
        requires
            none_coloured(old(self).objects@, GcColor::Black),
        ensures
            final(self)@ == old(self)@,
            final(self).objects@.len() == old(self).objects@.len(),
            forall|i: int|
                0 <= i < old(self).objects@.len() && (#[trigger] old(self).objects@[i]) is Some
                    ==> final(self).objects@[i] is Some && colour(final(self).objects@, i)
                    == if colour(old(self).objects@, i) == GcColor::Gray {
                    GcColor::Black
                } else {
                    GcColor::White
                },
    {
        let ghost mut done: int = 0;
        loop
            invariant
                self@ == old(self)@,
                self.objects@.len() == old(self).objects@.len(),
                0 <= done <= self.objects@.len(),
                none_coloured(old(self).objects@, GcColor::Black),
                forall|i: int|
                    0 <= i < old(self).objects@.len() && (#[trigger] old(self).objects@[i]) is Some
                        ==> self.objects@[i] is Some && colour(self.objects@, i) == if colour(
                        old(self).objects@,
                        i,
                    ) == GcColor::Gray {
                        if i < done {
                            GcColor::Black
                        } else {
                            GcColor::Gray
                        }
                    } else {
                        GcColor::White
                    },
            decreases self.objects@.len() - done,
        {
            let ghost before = self.objects@;
            match self.find_gray_object() {
                Some(obj_ref) => {
                    proof {
                        assert(texts(self.objects@)[obj_ref.0 as int] is Some);
                        assert(texts(old(self).objects@)[obj_ref.0 as int] is Some);
                        assert(old(self).objects@[obj_ref.0 as int] is Some);
                    }
                    self.blacken_object(obj_ref);
                    proof {
                        assert forall|i: int|
                            0 <= i < old(self).objects@.len() && (#[trigger] old(
                                self,
                            ).objects@[i]) is Some implies self.objects@[i] is Some && colour(
                            self.objects@,
                            i,
                        ) == if colour(old(self).objects@, i) == GcColor::Gray {
                            if i < obj_ref.0 + 1 {
                                GcColor::Black
                            } else {
                                GcColor::Gray
                            }
                        } else {
                            GcColor::White
                        } by {
                            assert(before[i] is Some);
                        }
                        done = obj_ref.0 + 1;
                    }
                },
                None => {
                    proof {
                        assert forall|i: int|
                            0 <= i < old(self).objects@.len() && (#[trigger] old(
                                self,
                            ).objects@[i]) is Some implies self.objects@[i] is Some && colour(
                            self.objects@,
                            i,
                        ) == if colour(old(self).objects@, i) == GcColor::Gray {
                            GcColor::Black
                        } else {
                            GcColor::White
                        } by {
                            assert(before[i] is Some);
                        }
                    }
                    return ;
                },
            }
        }
    }

    fn sweep(&mut self)
        requires
            none_coloured(old(self).objects@, GcColor::Gray),
            old(self).bytes_allocated == size_upto(
                texts(old(self).objects@),
                old(self).objects@.len() as int,
            ),
        ensures
            final(self).objects@.len() == old(self).objects@.len(),
            final(self).gc_roots == old(self).gc_roots,
            final(self).next_gc == old(self).next_gc,
            all_white(final(self).objects@),
            forall|i: int|
                0 <= i < old(self).objects@.len() ==> (#[trigger] texts(final(self).objects@)[i])
                    == if old(self).objects@[i] is Some && colour(old(self).objects@, i)
                    == GcColor::Black {
                    texts(old(self).objects@)[i]
                } else {
                    None
                },
            final(self).free_list@ == old(self).free_list@ + whites_upto(
                old(self).objects@,
                old(self).objects@.len() as int,
            ),
            final(self).bytes_allocated == size_upto(
                texts(final(self).objects@),
                final(self).objects@.len() as int,
            ),
            final(self).bytes_allocated <= old(self).bytes_allocated,
    {
        let mut bytes_freed: usize = 0;
        let mut index: usize = 0;
        let ghost total = self.objects@.len() as int;
        proof {
            assert(self.free_list@ + whites_upto(old(self).objects@, 0) =~= self.free_list@);
        }
        while index < self.objects.len()
            invariant
                total == old(self).objects@.len(),
                self.objects@.len() == total,
                self.gc_roots == old(self).gc_roots,
                self.next_gc == old(self).next_gc,
                self.bytes_allocated == old(self).bytes_allocated,
                self.bytes_allocated == size_upto(texts(old(self).objects@), total),
                none_coloured(old(self).objects@, GcColor::Gray),
                index <= total,
                forall|i: int| index <= i < total ==> self.objects@[i] == old(self).objects@[i],
                forall|i: int|
                    0 <= i < index && (#[trigger] self.objects@[i]) is Some ==> colour(
                        self.objects@,
                        i,
                    ) == GcColor::White,
                forall|i: int|
                    0 <= i < index ==> (#[trigger] texts(self.objects@)[i]) == if old(
                        self,
                    ).objects@[i] is Some && colour(old(self).objects@, i) == GcColor::Black {
                        texts(old(self).objects@)[i]
                    } else {
                        None
                    },
                self.free_list@ == old(self).free_list@ + whites_upto(
                    old(self).objects@,
                    index as int,
                ),
                bytes_freed + size_upto(texts(self.objects@), index as int) == size_upto(
                    texts(old(self).objects@),
                    index as int,
                ),
            decreases total - index,
        {
            let ghost before = self.objects@;
            let ghost free_before = self.free_list@;
            let mut freed: Option<usize> = None;
            proof {
                lemma_size_upto_grows(texts(old(self).objects@), index + 1, total);
                assert(texts(old(self).objects@)[index as int] == texts(before)[index as int]);
            }
            match &mut self.objects[index] {
                Some(obj) => {
                    if obj.header.marked == GcColor::White {
                        let length = match &obj.data {
                            ObjectData::String(s) => s.len(),
                        };
                        freed = Some(OBJECT_HEADER_SIZE + length);
                    } else {
                        obj.header.marked = GcColor::White;
                    }
                },
                None => {},
            }
            if let Some(size) = freed {
                self.objects[index] = None;
                self.free_list.push(index);
                bytes_freed += size;
            }
            proof {
                assert(forall|i: int| 0 <= i < index ==> self.objects@[i] == before[i]);
                assert forall|i: int| 0 <= i < index implies (#[trigger] texts(self.objects@)[i])
                    == texts(before)[i] by {
                    assert(self.objects@[i] == before[i]);
                }
                lemma_size_upto_agrees(texts(self.objects@), texts(before), index as int);
                assert(self.free_list@ =~= old(self).free_list@ + whites_upto(
                    old(self).objects@,
                    index + 1,
                ));
            }
            index += 1;
        }
        self.bytes_allocated = self.bytes_allocated - bytes_freed;
    }

    /// Whether the heap has room for a string of text `s`: whether the bytes
    /// it holds and those of the new object are within [`HEAP_LIMIT`].
    pub fn has_room(&self, s: &str) -> (room: bool)
        requires
            self.wf(),
        ensures
            room == (self@.bytes_allocated + object_size(s@) <= HEAP_LIMIT),
    {
        let length = s.as_bytes().len();
        let free = HEAP_LIMIT - self.bytes_allocated;
        free >= OBJECT_HEADER_SIZE && length <= free - OBJECT_HEADER_SIZE
    }

    /// Allocates a string object that holds the text `s`, after a collection
    /// if the bytes held would else go over the threshold, and returns its
    /// handle. The object is in no root set: its handle is to be added to the
    /// roots before the next allocation if it is to stay.
    pub fn alloc_string(&mut self, s: &str) -> (handle: ObjectRef)
        requires
            old(self).wf(),
            old(self)@.bytes_allocated + object_size(s@) <= HEAP_LIMIT,
        ensures
            final(self).wf(),
            final(self)@ == old(self)@.allocated(s@).0,
            handle == old(self)@.allocated(s@).1,
    {
        let size = OBJECT_HEADER_SIZE + s.as_bytes().len();
        self.maybe_gc(size);
        let obj = GcObject {
            header: GcHeader { marked: GcColor::White },
            data: ObjectData::String(ObjString::new(s)),
        };
        self.alloc_object(obj, size)
    }

    fn alloc_object(&mut self, obj: GcObject, size: usize) -> (handle: ObjectRef)
        requires
            old(self).wf(),
            obj.header.marked == GcColor::White,
            size == object_size(obj.text()),
            old(self)@.bytes_allocated + size <= HEAP_LIMIT,
        ensures
            final(self).wf(),
            final(self)@ == old(self)@.placed(obj.text()).0,
            handle == old(self)@.placed(obj.text()).1,
    {
        let ghost text = obj.text();
        proof {
            lemma_placed_wf(self@, text);
        }
        let index = match self.free_list.pop() {
            Some(free_index) => {
                self.objects[free_index] = Some(obj);
                free_index
            },
            None => {
                self.objects.push(Some(obj));
                self.objects.len() - 1
            },
        };
        self.bytes_allocated = self.bytes_allocated + size;
        proof {
            assert(self@.slots =~= old(self)@.placed(text).0.slots);
            assert(self@.free_list =~= old(self)@.placed(text).0.free_list);
        }
        ObjectRef(index)
    }

    /// The object that the handle names, if its slot holds one.
    pub fn get(&self, obj_ref: ObjectRef) -> (found: Option<&GcObject>)
        ensures
            match found {
                Some(object) => self@.resolves(obj_ref) && object.text() == self@.text_of(obj_ref),
                None => !self@.resolves(obj_ref),
            },
    {
        if obj_ref.0 < self.objects.len() {
            match &self.objects[obj_ref.0] {
                Some(object) => Some(object),
                None => None,
            }
        } else {
            None
        }
    }

    /// The text of the string that the handle names, if its slot holds one.
    pub fn get_string(&self, obj_ref: ObjectRef) -> (found: Option<String>)
        ensures
            match found {
                Some(text) => self@.resolves(obj_ref) && text@ == self@.text_of(obj_ref),
                None => !self@.resolves(obj_ref),
            },
    {
        match self.get(obj_ref) {
            Some(obj) => match &obj.data {
                ObjectData::String(s) => Some(s.as_str().to_owned()),
            },
            None => None,
        }
    }

    /// The hash of the string that the handle names, if its slot holds one.
    pub fn get_string_hash(&self, obj_ref: ObjectRef) -> (found: Option<u32>)
        ensures
            match found {
                Some(hash) => self@.resolves(obj_ref) && hash == string_hash(
                    self@.text_of(obj_ref),
                ),
                None => !self@.resolves(obj_ref),
            },
    {
        match self.get(obj_ref) {
            Some(obj) => match &obj.data {
                ObjectData::String(s) => Some(s.hash()),
            },
            None => None,
        }
    }

    /// Adds a handle to the root set.
    pub fn add_root(&mut self, obj: ObjectRef)
        ensures
            final(self)@ == old(self)@.with_root(obj),
            old(self).wf() ==> final(self).wf(),
    {
        self.gc_roots.push(obj);
    }

    /// Takes a handle out of the root set, wherever it stands in it.
    pub fn remove_root(&mut self, obj: ObjectRef)
        ensures
            final(self)@ == old(self)@.without_root(obj),
            old(self).wf() ==> final(self).wf(),
    {
        let mut kept: Vec<ObjectRef> = Vec::new();
        let mut k: usize = 0;
        while k < self.gc_roots.len()
            invariant
                *self == *old(self),
                k <= self.gc_roots@.len(),
                kept@ == roots_without(self.gc_roots@, obj, k as int),
            decreases self.gc_roots@.len() - k,
        {
            let root = self.gc_roots[k];
            if root.0 != obj.0 {
                kept.push(root);
            }
            k += 1;
        }
        self.gc_roots = kept;
    }

    fn maybe_gc(&mut self, additional_bytes: usize)
        requires
            old(self).wf(),
            old(self)@.bytes_allocated + additional_bytes <= HEAP_LIMIT,
        ensures
            final(self).wf(),
            final(self)@ == if old(self)@.collects_before(additional_bytes as nat) {
                old(self)@.collected()
            } else {
                old(self)@
            },
            final(self)@.bytes_allocated <= old(self)@.bytes_allocated,
    {
        if self.bytes_allocated + additional_bytes > self.next_gc {
            proof {
                lemma_collected_wf(self@);
            }
            self.collect_garbage();
        }
    }

    /// Counts of what the heap holds.
    pub fn stats(&self) -> (stats: HeapStats)
        ensures
            stats.bytes_allocated == self@.bytes_allocated,
            stats.next_gc == self@.next_gc,
            stats.total_slots == self@.slots.len(),
            stats.live_objects == live_upto(self@.slots, self@.slots.len() as int),
            stats.free_slots == self@.free_list.len(),
            self.wf() ==> stats.live_objects + stats.free_slots == stats.total_slots,
    {
        proof {
            if self.wf() {
                lemma_live_and_free(self@);
            }
        }
        let mut live_objects: usize = 0;
        let mut index: usize = 0;
        while index < self.objects.len()
            invariant
                index <= self.objects@.len(),
                live_objects == live_upto(self@.slots, index as int),
                live_objects <= index,
            decreases self.objects@.len() - index,
        {
            if self.objects[index].is_some() {
                live_objects += 1;
            }
            index += 1;
        }
        HeapStats {
            bytes_allocated: self.bytes_allocated,
            next_gc: self.next_gc,
            total_slots: self.objects.len(),
            live_objects,
            free_slots: self.free_list.len(),
        }
    }

    /// What [`ObjectHeap::wf`] says of the heap's value.
    pub proof fn lemma_wf(&self)
        requires
            self.wf(),
        ensures
            self@.wf(),
    {
    }

    /// Collects: every object that the root set does not name is freed.
    pub fn collect_garbage(&mut self)
        requires
            old(self).wf(),
        ensures
            final(self).wf(),
            final(self)@ == old(self)@.collected(),
    {
        self.mark_roots();
        let ghost marked = self.objects@;
        proof {
            assert forall|i: int| 0 <= i < marked.len() && (#[trigger] marked[i]) is Some implies colour(
                marked,
                i,
            ) != GcColor::Black by {
                assert(texts(marked)[i] is Some);
                assert(texts(old(self).objects@)[i] is Some);
                assert(old(self).objects@[i] is Some);
            }
        }
        self.trace_references();
        let ghost traced = self.objects@;
        proof {
            assert forall|i: int| 0 <= i < traced.len() implies ((#[trigger] traced[i]) is Some <==> old(
                self,
            ).objects@[i] is Some) && (traced[i] is Some ==> colour(traced, i) == if old(
                self,
            )@.rooted(i) {
                GcColor::Black
            } else {
                GcColor::White
            }) by {
                assert(texts(traced)[i] is Some <==> traced[i] is Some);
                assert(texts(marked)[i] is Some <==> marked[i] is Some);
                assert(texts(old(self).objects@)[i] is Some <==> old(self).objects@[i] is Some);
            }
            assert(texts(traced) == old(self)@.slots);
        }
        self.sweep();
        proof {
            let view = old(self)@;
            let total = view.slots.len() as int;
            assert(texts(self.objects@) =~= view.survivors()) by {
                assert forall|i: int| 0 <= i < total implies texts(self.objects@)[i]
                    == view.survivors()[i] by {
                    assert(texts(traced)[i] == view.slots[i]);
                    assert(traced[i] is Some <==> texts(traced)[i] is Some);
                }
            }
            lemma_whites_are_freed(traced, view, total);
            lemma_collected_wf(view);
        }
        self.next_gc = self.bytes_allocated * HEAP_GROW_FACTOR;
    }
}

/// The bytes counted for the first slots do not depend on the slots after
/// them.
proof fn lemma_size_upto_agrees(a: Seq<Option<Seq<char>>>, b: Seq<Option<Seq<char>>>, n: int)
    requires
        n <= a.len(),
        n <= b.len(),
        forall|i: int| 0 <= i < n ==> a[i] == b[i],
    ensures
        size_upto(a, n) == size_upto(b, n),
    decreases n,
{
    if n > 0 {
        lemma_size_upto_agrees(a, b, n - 1);
    }
}

/// More slots count for no fewer bytes.
proof fn lemma_size_upto_grows(slots: Seq<Option<Seq<char>>>, n: int, m: int)
    requires
        n <= m,
    ensures
        size_upto(slots, n) <= size_upto(slots, m),
    decreases m - n,
{
    if n < m {
        lemma_size_upto_grows(slots, n, m - 1);
    }
}

/// A table that holds, slot by slot, an object of another table or none
/// counts for no more bytes.
proof fn lemma_size_upto_of_part(part: Seq<Option<Seq<char>>>, whole: Seq<Option<Seq<char>>>, n: int)
    requires
        n <= part.len(),
        n <= whole.len(),
        forall|i: int| 0 <= i < n ==> (#[trigger] part[i]) is None || part[i] == whole[i],
    ensures
        size_upto(part, n) <= size_upto(whole, n),
    decreases n,
{
    if n > 0 {
        lemma_size_upto_of_part(part, whole, n - 1);
        assert(part[n - 1] is None || part[n - 1] == whole[n - 1]);
    }
}

/// After marking and tracing, the white objects are those that a collection
/// frees.
proof fn lemma_whites_are_freed(objects: Seq<Option<GcObject>>, view: HeapView, n: int)
    requires
        0 <= n <= objects.len(),
        texts(objects) == view.slots,
        forall|i: int|
            0 <= i < objects.len() && (#[trigger] objects[i]) is Some ==> colour(objects, i)
                == if view.rooted(i) {
                GcColor::Black
            } else {
                GcColor::White
            },
    ensures
        whites_upto(objects, n) == view.freed_upto(n),
    decreases n,
{
    if n > 0 {
        lemma_whites_are_freed(objects, view, n - 1);
        assert(texts(objects)[n - 1] is Some <==> objects[n - 1] is Some);
    }
}

/// What a collection frees among the first `n` slots: each slot once, each
/// below `n`, each with an object that the root set does not name; and every
/// such slot.
pub proof fn lemma_freed_upto(view: HeapView, n: int)
    requires
        0 <= n <= view.slots.len() <= usize::MAX,
    ensures
        view.freed_upto(n).no_duplicates(),
        forall|k: int|
            0 <= k < view.freed_upto(n).len() ==> {
                let slot = #[trigger] view.freed_upto(n)[k];
                slot < n && view.slots[slot as int] is Some && !view.rooted(slot as int)
            },
        forall|i: int|
            0 <= i < n && (#[trigger] view.slots[i]) is Some && !view.rooted(i)
                ==> view.freed_upto(n).contains(i as usize),
    decreases n,
{
    if n > 0 {
        lemma_freed_upto(view, n - 1);
        let rest = view.freed_upto(n - 1);
        let all = view.freed_upto(n);
        if view.slots[n - 1] is Some && !view.rooted(n - 1) {
            assert(all[all.len() - 1] == (n - 1) as usize);
            assert forall|k: int| 0 <= k < all.len() implies {
                let slot = #[trigger] all[k];
                slot < n && view.slots[slot as int] is Some && !view.rooted(slot as int)
            } by {
                if k < rest.len() {
                    assert(all[k] == rest[k]);
                }
            }
            assert forall|a: int, b: int| 0 <= a < all.len() && 0 <= b < all.len() && a != b implies all[a]
                != all[b] by {
                if a < rest.len() {
                    assert(all[a] == rest[a]);
                }
                if b < rest.len() {
                    assert(all[b] == rest[b]);
                }
            }
            assert forall|i: int|
                0 <= i < n && (#[trigger] view.slots[i]) is Some && !view.rooted(
                    i,
                ) implies all.contains(i as usize) by {
                if i < n - 1 {
                    let k = choose|k: int| 0 <= k < rest.len() && rest[k] == i as usize;
                    assert(all[k] == i as usize);
                } else {
                    assert(all[all.len() - 1] == i as usize);
                }
            }
        }
    }
}

/// A collection leaves a well-formed heap: in particular the count of bytes
/// is that of the objects that stay.
pub proof fn lemma_collected_wf(view: HeapView)
    requires
        view.wf(),
    ensures
        view.collected().wf(),
        view.collected().bytes_allocated == view.collected().total_size(),
        view.collected().bytes_allocated <= view.bytes_allocated,
        view.collected().next_gc == view.collected().bytes_allocated * HEAP_GROW_FACTOR,
{
    let after = view.collected();
    let total = view.slots.len() as int;
    let freed = view.freed_upto(total);
    lemma_size_upto_of_part(after.slots, view.slots, total);
    lemma_freed_upto(view, total);
    assert(after.free_list.no_duplicates()) by {
        assert forall|a: int, b: int|
            0 <= a < after.free_list.len() && 0 <= b < after.free_list.len() && a
                != b implies after.free_list[a] != after.free_list[b] by {
            let split = view.free_list.len() as int;
            if a < split && b >= split {
                assert(view.slots[view.free_list[a] as int] is None);
                assert(view.slots[freed[b - split] as int] is Some);
            } else if b < split && a >= split {
                assert(view.slots[view.free_list[b] as int] is None);
                assert(view.slots[freed[a - split] as int] is Some);
            } else if a >= split {
                assert(freed[a - split] != freed[b - split]);
            }
        }
    }
    assert forall|k: int| 0 <= k < after.free_list.len() implies (#[trigger] after.free_list[k])
        < after.slots.len() && after.slots[after.free_list[k] as int] is None by {
        let split = view.free_list.len() as int;
        if k >= split {
            assert(after.free_list[k] == freed[k - split]);
        } else {
            assert(after.free_list[k] == view.free_list[k]);
        }
    }
    assert forall|i: int|
        0 <= i < after.slots.len() && (#[trigger] after.slots[i]) is None implies after.free_list.contains(
        i as usize,
    ) by {
        let split = view.free_list.len() as int;
        if view.slots[i] is None {
            let k = choose|k: int| 0 <= k < view.free_list.len() && view.free_list[k] == i as usize;
            assert(after.free_list[k] == i as usize);
        } else {
            assert(!view.rooted(i));
            let k = choose|k: int| 0 <= k < freed.len() && freed[k] == i as usize;
            assert(after.free_list[split + k] == i as usize);
        }
    }
}


/// Filling a slot that was empty adds the object's bytes to the count.
proof fn lemma_size_upto_filled(slots: Seq<Option<Seq<char>>>, slot: int, text: Seq<char>, n: int)
    requires
        0 <= slot < slots.len(),
        slots[slot] is None,
        0 <= n <= slots.len(),
    ensures
        size_upto(slots.update(slot, Some(text)), n) == size_upto(slots, n) + if slot < n {
            object_size(text)
        } else {
            0
        },
    decreases n,
{
    if n > 0 {
        lemma_size_upto_filled(slots, slot, text, n - 1);
    }
}

/// A table with an object in each slot counts for at least a header's bytes
/// for each slot.
proof fn lemma_full_table_size(slots: Seq<Option<Seq<char>>>, n: int)
    requires
        0 <= n <= slots.len(),
        forall|i: int| 0 <= i < n ==> (#[trigger] slots[i]) is Some,
    ensures
        size_upto(slots, n) >= OBJECT_HEADER_SIZE * n,
    decreases n,
{
    if n > 0 {
        lemma_full_table_size(slots, n - 1);
        assert(slots[n - 1] is Some);
    }
}

/// An allocation within the limit leaves a well-formed heap.
pub proof fn lemma_placed_wf(view: HeapView, text: Seq<char>)
    requires
        view.wf(),
        view.bytes_allocated + object_size(text) <= HEAP_LIMIT,
    ensures
        view.placed(text).0.wf(),
        view.placed(text).0.resolves(view.placed(text).1),
        view.placed(text).0.text_of(view.placed(text).1) == text,
        !view.resolves(view.placed(text).1),
{
    let after = view.placed(text).0;
    let total = view.slots.len() as int;
    if view.free_list.len() > 0 {
        let last = view.free_list.len() - 1;
        let slot = view.free_list[last];
        lemma_size_upto_filled(view.slots, slot as int, text, total);
        assert forall|k: int| 0 <= k < after.free_list.len() implies (#[trigger] after.free_list[k])
            < after.slots.len() && after.slots[after.free_list[k] as int] is None by {
            assert(after.free_list[k] == view.free_list[k]);
            assert(view.free_list[k] != view.free_list[last]);
        }
        assert forall|i: int|
            0 <= i < after.slots.len() && (#[trigger] after.slots[i]) is None implies after.free_list.contains(
            i as usize,
        ) by {
            assert(view.slots[i] is None);
            let k = choose|k: int| 0 <= k < view.free_list.len() && view.free_list[k] == i as usize;
            assert(after.free_list[k] == i as usize);
        }
    } else {
        assert forall|i: int| 0 <= i < total implies (#[trigger] view.slots[i]) is Some by {
            if view.slots[i] is None {
                assert(view.free_list.contains(i as usize));
            }
        }
        lemma_full_table_size(view.slots, total);
        lemma_size_upto_agrees(after.slots, view.slots, total);
        assert forall|i: int|
            0 <= i < after.slots.len() && (#[trigger] after.slots[i]) is None implies after.free_list.contains(
            i as usize,
        ) by {
            assert(view.slots[i] is None);
        }
    }
}

/// An object that the root set names stays through a collection, with its
/// text, and its slot is not on the free list afterwards.
pub proof fn lemma_collection_keeps_roots(view: HeapView, handle: ObjectRef)
    requires
        view.wf(),
        view.roots.contains(handle),
        view.resolves(handle),
    ensures
        view.collected().resolves(handle),
        view.collected().text_of(handle) == view.text_of(handle),
        !view.collected().free_list.contains(handle.0),
{
    lemma_collected_wf(view);
    let k = choose|k: int| 0 <= k < view.roots.len() && view.roots[k] == handle;
    assert(view.roots[k].0 == handle.0);
    assert(view.rooted(handle.0 as int));
}

/// A collection frees exactly the objects that the root set does not name.
pub proof fn lemma_collection_frees_unrooted(view: HeapView, slot: int)
    requires
        0 <= slot < view.slots.len(),
        view.slots[slot] is Some,
    ensures
        view.collected().slots[slot] is None <==> !view.rooted(slot),
{
}

/// A second collection with no allocation in between changes nothing: in
/// particular the count of bytes stays.
pub proof fn lemma_collection_idempotent(view: HeapView)
    requires
        view.wf(),
    ensures
        view.collected().collected() == view.collected(),
        view.collected().collected().bytes_allocated == view.collected().bytes_allocated,
{
    let once = view.collected();
    let twice = once.collected();
    lemma_collected_wf(view);
    assert(twice.slots =~= once.slots);
    lemma_nothing_left_to_free(view, once.slots.len() as int);
    assert(twice.free_list =~= once.free_list);
}

proof fn lemma_nothing_left_to_free(view: HeapView, n: int)
    requires
        0 <= n <= view.slots.len(),
    ensures
        view.collected().freed_upto(n) == Seq::<usize>::empty(),
    decreases n,
{
    if n > 0 {
        lemma_nothing_left_to_free(view, n - 1);
    }
}

/// An allocation within the limit leaves a well-formed heap that holds the
/// new object under the handle returned, and keeps the root set and every
/// object that the root set names, with its text.
pub proof fn lemma_allocation_keeps_roots(view: HeapView, text: Seq<char>)
    requires
        view.wf(),
        view.bytes_allocated + object_size(text) <= HEAP_LIMIT,
    ensures
        view.allocated(text).0.wf(),
        view.allocated(text).0.roots == view.roots,
        view.allocated(text).0.resolves(view.allocated(text).1),
        view.allocated(text).0.text_of(view.allocated(text).1) == text,
        forall|handle: ObjectRef|
            view.roots.contains(handle) && #[trigger] view.resolves(handle) ==> {
                &&& view.allocated(text).0.resolves(handle)
                &&& view.allocated(text).0.text_of(handle) == view.text_of(handle)
                &&& handle != view.allocated(text).1
            },
{
    let base = if view.collects_before(object_size(text)) {
        view.collected()
    } else {
        view
    };
    lemma_collected_wf(view);
    lemma_placed_wf(base, text);
    assert forall|handle: ObjectRef|
        view.roots.contains(handle) && #[trigger] view.resolves(handle) implies {
        &&& view.allocated(text).0.resolves(handle)
        &&& view.allocated(text).0.text_of(handle) == view.text_of(handle)
        &&& handle != view.allocated(text).1
    } by {
        if view.collects_before(object_size(text)) {
            lemma_collection_keeps_roots(view, handle);
        }
        assert(base.resolves(handle));
    }
}

/// The empty slots among the first `n`.
spec fn empty_slots(slots: Seq<Option<Seq<char>>>, n: int) -> Set<usize>
    decreases n,
{
    if n <= 0 {
        Set::empty()
    } else if slots[n - 1] is None {
        empty_slots(slots, n - 1).insert((n - 1) as usize)
    } else {
        empty_slots(slots, n - 1)
    }
}

proof fn lemma_empty_slots(slots: Seq<Option<Seq<char>>>, n: int)
    requires
        0 <= n <= slots.len() <= usize::MAX,
    ensures
        empty_slots(slots, n).finite(),
        empty_slots(slots, n).len() + live_upto(slots, n) == n,
        forall|i: usize|
            empty_slots(slots, n).contains(i) <==> i < n && (#[trigger] slots[i as int]) is None,
    decreases n,
{
    if n > 0 {
        lemma_empty_slots(slots, n - 1);
    }
}

/// In a well-formed heap each slot holds an object or is on the free list:
/// the objects and the free slots together are as many as the slots.
pub proof fn lemma_live_and_free(view: HeapView)
    requires
        view.wf(),
    ensures
        live_upto(view.slots, view.slots.len() as int) + view.free_list.len() == view.slots.len(),
{
    let total = view.slots.len() as int;
    lemma_empty_slots(view.slots, total);
    view.free_list.unique_seq_to_set();
    assert(view.free_list.to_set() =~= empty_slots(view.slots, total)) by {
        assert forall|i: usize| view.free_list.to_set().contains(i) <==> empty_slots(
            view.slots,
            total,
        ).contains(i) by {
            if view.free_list.to_set().contains(i) {
                let k = choose|k: int| 0 <= k < view.free_list.len() && view.free_list[k] == i;
                assert(view.slots[view.free_list[k] as int] is None);
            }
            if empty_slots(view.slots, total).contains(i) {
                assert(view.slots[i as int] is None);
                assert(view.free_list.contains(i as int as usize));
            }
        }
    }
}

} // verus!
