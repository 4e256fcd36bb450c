//! What guest code acts on: the classes with their statics, the heap, the interned strings, and the
//! guest's standard output.

use vstd::prelude::*;
use vstd::utf8::encode_utf8;
use crate::diff::EscapeState;
use crate::env::copy_values;
use crate::heap::{Heap, HeapView, ObjectView};
use crate::ids::ClassId;
use crate::interp::error::ExecError;
use crate::loader::{class_at, class_named, registry_wf, with_static, ClassRegistry, RegistryView};
use crate::native::{NativeEnv, NativeError};
use crate::text::same_text;
use crate::value::{Tag, Val128};

verus! {

/// What guest code acts on.
pub struct World {
    pub registry: ClassRegistry,
    pub heap: Heap,
    /// Interned strings are never released.
    pub interned: Vec<(String, Val128)>,
    /// Output kept for the embedder to take, if output is captured.
    pub captured: Option<Vec<u8>>,
    /// Output on its way to the process's standard output, if it is not captured.
    pub outgoing: Vec<u8>,
}

/// What guest code acts on.
#[verifier::ext_equal]
pub struct WorldView {
    pub classes: RegistryView,
    pub heap: HeapView,
    pub interned: Seq<(Seq<char>, Val128)>,
    pub captured: Option<Seq<u8>>,
    pub outgoing: Seq<u8>,
}

/// The interned texts with their strings.
pub open spec fn interned_views(s: Seq<(String, Val128)>) -> Seq<(Seq<char>, Val128)> {
    Seq::new(s.len(), |i: int| (s[i].0@, s[i].1))
}

impl View for World {
    type V = WorldView;

    open spec fn view(&self) -> WorldView {
        WorldView {
            classes: self.registry@,
            heap: self.heap@,
            interned: interned_views(self.interned@),
            captured: match self.captured {
                Some(b) => Some(b@),
                None => None,
            },
            outgoing: self.outgoing@,
        }
    }
}

/// The string that a text is interned as, from position `i` on.
pub open spec fn interned_from(pool: Seq<(Seq<char>, Val128)>, text: Seq<char>, i: int) -> Option<
    Val128,
>
    decreases pool.len() - i,
{
    if i >= pool.len() {
        None
    } else if pool[i].0 == text {
        Some(pool[i].1)
    } else {
        interned_from(pool, text, i + 1)
    }
}

impl WorldView {
    /// A new string object; it is shared from the start.
    pub open spec fn string_made(self, text: Seq<char>) -> (WorldView, Result<Val128, ExecError>) {
        match class_named(self.classes, "java/lang/String"@) {
            None => (self, Err(ExecError::Unresolved)),
            Some(class) => if self.heap.live() >= self.heap.limit {
                (self, Err(ExecError::OutOfMemory))
            } else {
                let r = self.heap.next_ref();
                let fields = self.classes[class.0 as int].field_defaults;
                (
                    WorldView {
                        heap: self.heap.allocated(class, EscapeState::S2, fields).with_object(
                            r,
                            ObjectView {
                                class,
                                escape: EscapeState::S2,
                                fields,
                                rc: 0,
                                text: Some(text),
                            },
                        ),
                        ..self
                    },
                    Ok(Val128::ptr(r)),
                )
            },
        }
    }

    /// The interned string of a text: the same text always gives the same reference. A new one is
    /// pinned by a permanent reference.
    pub open spec fn string_interned(self, text: Seq<char>) -> (
        WorldView,
        Result<Val128, ExecError>,
    ) {
        match interned_from(self.interned, text, 0) {
            Some(v) => (self, Ok(v)),
            None => match self.string_made(text) {
                (w, Err(e)) => (w, Err(e)),
                (w, Ok(v)) => (
                    WorldView {
                        heap: w.heap.delta_applied(v.ref_index(), 1),
                        interned: w.interned.push((text, v)),
                        ..w
                    },
                    Ok(v),
                ),
            },
        }
    }

    /// A new string object, as a native method asks for it.
    pub open spec fn native_string(self, text: Seq<char>) -> (
        WorldView,
        Result<Val128, NativeError>,
    ) {
        match self.string_made(text) {
            (w, Ok(v)) => (w, Ok(v)),
            (w, Err(_)) => (w, Err(NativeError::OutOfMemory)),
        }
    }

    /// The text of a reference to a live string. Only a real string carries text.
    pub open spec fn text_of_value(self, v: Val128) -> Option<Seq<char>> {
        if !v.tag().is_ref() {
            None
        } else {
            match self.heap.object(v.ref_index()) {
                None => None,
                Some(o) => match class_at(self.classes, o.class) {
                    Some(k) => if k.name == "java/lang/String"@ {
                        o.text
                    } else {
                        None
                    },
                    None => None,
                },
            }
        }
    }

    /// With a text written to the guest's standard output.
    pub open spec fn printed(self, text: Seq<char>) -> WorldView {
        match self.captured {
            Some(b) => WorldView { captured: Some(b + encode_utf8(text)), ..self },
            None => WorldView { outgoing: self.outgoing + encode_utf8(text), ..self },
        }
    }

    /// A field of an object.
    pub open spec fn native_field(self, obj: Val128, slot: u16) -> Result<Val128, NativeError> {
        if obj.tag() is Null {
            Err(NativeError::NullPointer)
        } else if self.heap.has_field(obj.ref_index(), slot as int) {
            Ok(self.heap.object(obj.ref_index())->0.fields[slot as int])
        } else {
            Err(NativeError::BadValue)
        }
    }

    /// With a field of an object written.
    pub open spec fn native_field_set(self, obj: Val128, slot: u16, v: Val128) -> (
        WorldView,
        Result<(), NativeError>,
    ) {
        if obj.tag() is Null {
            (self, Err(NativeError::NullPointer))
        } else if self.heap.has_field(obj.ref_index(), slot as int) {
            (
                WorldView {
                    heap: self.heap.with_field(obj.ref_index(), slot as int, v),
                    ..self
                },
                Ok(()),
            )
        } else {
            (self, Err(NativeError::BadValue))
        }
    }

    /// The runtime class name of a reference.
    pub open spec fn class_name_of_value(self, v: Val128) -> Option<Seq<char>> {
        match self.heap.object(v.ref_index()) {
            None => None,
            Some(o) => match class_at(self.classes, o.class) {
                Some(k) => Some(k.name),
                None => None,
            },
        }
    }

    /// With a print stream in a static field of `System`, unless one is there already.
    pub open spec fn stream_installed(self, sys: ClassId, ps: ClassId, field: Seq<char>) -> (
        WorldView,
        Result<(), ExecError>,
    ) {
        match self.classes[sys.0 as int].static_slot(field, "Ljava/io/PrintStream;"@) {
            None => (self, Ok(())),
            Some(slot) => if self.classes[sys.0 as int].statics[slot as int].tag().is_ref() {
                (self, Ok(()))
            } else if self.heap.live() >= self.heap.limit {
                (self, Err(ExecError::OutOfMemory))
            } else {
                let r = self.heap.next_ref();
                (
                    WorldView {
                        heap: self.heap.allocated(
                            ps,
                            EscapeState::S2,
                            self.classes[ps.0 as int].field_defaults,
                        ).delta_applied(r, 1),
                        classes: with_static(self.classes, sys, slot as int, Val128::ptr(r)),
                        ..self
                    },
                    Ok(()),
                )
            },
        }
    }

    /// With `System.out` and `System.err` installed.
    pub open spec fn streams_installed(self) -> (WorldView, Result<(), ExecError>) {
        match class_named(self.classes, "java/lang/System"@) {
            None => (self, Err(ExecError::Unresolved)),
            Some(sys) => match class_named(self.classes, "java/io/PrintStream"@) {
                None => (self, Err(ExecError::Unresolved)),
                Some(ps) => match self.stream_installed(sys, ps, "out"@) {
                    (w, Err(e)) => (w, Err(e)),
                    (w, Ok(_)) => w.stream_installed(sys, ps, "err"@),
                },
            },
        }
    }
}

impl World {
    /// Classes and heap are well-formed.
    pub open spec fn wf(&self) -> bool {
        &&& registry_wf(self.registry@)
        &&& self.heap.wf()
    }

    /// Nothing happened yet.
    pub fn new(registry: ClassRegistry) -> (w: World)
        requires
            registry_wf(registry@),
        ensures
            w.wf(),
            w@ == (WorldView {
                classes: registry@,
                heap: HeapView::fresh(0x100_0000),
                interned: Seq::empty(),
                captured: None,
                outgoing: Seq::empty(),
            }),
    {
        let w = World {
            registry,
            heap: Heap::new(),
            interned: Vec::new(),
            captured: None,
            outgoing: Vec::new(),
        };
        assert(w@.interned =~= Seq::empty());
        w
    }

    /// Write guest output to wherever it is directed.
    pub(crate) fn write_output(&mut self, s: &str)
        requires
            old(self).wf(),
        ensures
            final(self).wf(),
            final(self)@ == old(self)@.printed(s@),
    {
        match &mut self.captured {
            Some(buf) => {
                buf.extend_from_slice(s.as_bytes());
            },
            None => {
                self.outgoing.extend_from_slice(s.as_bytes());
            },
        }
        proof {
            assert(self@ =~= old(self)@.printed(s@));
        }
    }

    /// Allocate a `java.lang.String` holding `text`.
    pub(crate) fn alloc_string(&mut self, text: &str) -> (r: Result<Val128, ExecError>)
        requires
            old(self).wf(),
        ensures
            final(self).wf(),
            (final(self)@, r) == old(self)@.string_made(text@),
    {
        let class = match self.registry.by_name("java/lang/String") {
            Some(c) => c,
            None => {
                return Err(ExecError::Unresolved);
            },
        };
        let defaults = match self.registry.get(class) {
            Some(k) => copy_values(&k.field_defaults),
            None => {
                return Err(ExecError::Unresolved);
            },
        };
        match self.heap.allocate(class, EscapeState::S2, defaults) {
            None => Err(ExecError::OutOfMemory),
            Some(r) => {
                self.heap.set_text(r, text);
                Ok(Val128::ptr(r))
            },
        }
    }

    /// The interned string for a literal: the same literal always yields the same reference.
    pub(crate) fn intern(&mut self, text: &str) -> (r: Result<Val128, ExecError>)
        requires
            old(self).wf(),
        ensures
            final(self).wf(),
            (final(self)@, r) == old(self)@.string_interned(text@),
    {
        let mut i: usize = 0;
        while i < self.interned.len()
            invariant
                i <= self.interned@.len(),
                *self == *old(self),
                self.wf(),
                interned_from(self@.interned, text@, 0) == interned_from(
                    self@.interned,
                    text@,
                    i as int,
                ),
            decreases self.interned@.len() - i,
        {
            assert(self@.interned[i as int] == (self.interned@[i as int].0@, self.interned@[
                i as int
            ].1));
            if same_text(self.interned[i].0.as_str(), text) {
                return Ok(self.interned[i].1);
            }
            i += 1;
        }
        let v = self.alloc_string(text)?;
        let ghost before = interned_views(self.interned@);
        self.heap.add_rc(v.ref_index(), 1);
        self.interned.push((text.to_string(), v));
        assert(interned_views(self.interned@) =~= before.push((text@, v)));
        Ok(v)
    }

    /// Create a print stream and store it in a static field of `System`.
    fn install_stream(&mut self, sys: ClassId, ps: ClassId, field: &str) -> (r: Result<
        (),
        ExecError,
    >)
        requires
            old(self).wf(),
            sys.0 < old(self)@.classes.len(),
            ps.0 < old(self)@.classes.len(),
        ensures
            final(self).wf(),
            (final(self)@, r) == old(self)@.stream_installed(sys, ps, field@),
            final(self)@.classes.len() == old(self)@.classes.len(),
    {
        let k = match self.registry.get(sys) {
            Some(k) => k,
            None => {
                return Err(ExecError::Unresolved);
            },
        };
        assert(self@.classes[sys.0 as int].wf(sys.0 as int));
        let slot: usize = match k.static_slot(field, "Ljava/io/PrintStream;") {
            Some(s) => s,
            None => {
                return Ok(());
            },
        };
        proof {
            crate::loader::lemma_static_slot_below(
                self@.classes,
                sys,
                field@,
                "Ljava/io/PrintStream;"@,
            );
        }
        if k.statics[slot].tag().is_ref() {
            return Ok(());
        }
        let defaults = match self.registry.get(ps) {
            Some(p) => copy_values(&p.field_defaults),
            None => {
                return Err(ExecError::Unresolved);
            },
        };
        match self.heap.allocate(ps, EscapeState::S2, defaults) {
            None => Err(ExecError::OutOfMemory),
            Some(r) => {
                self.heap.add_rc(r, 1);
                self.registry.set_static(sys, slot, Val128::ptr(r));
                Ok(())
            },
        }
    }

    /// Create the `PrintStream` singletons and store them in `System.out` / `System.err`.
    pub(crate) fn init_system_streams(&mut self) -> (r: Result<(), ExecError>)
        requires
            old(self).wf(),
        ensures
            final(self).wf(),
            (final(self)@, r) == old(self)@.streams_installed(),
    {
        let sys = match self.registry.by_name("java/lang/System") {
            Some(c) => c,
            None => {
                return Err(ExecError::Unresolved);
            },
        };
        let ps = match self.registry.by_name("java/io/PrintStream") {
            Some(c) => c,
            None => {
                return Err(ExecError::Unresolved);
            },
        };
        self.install_stream(sys, ps, "out")?;
        self.install_stream(sys, ps, "err")
    }
}

impl NativeEnv for World {
    open spec fn world(&self) -> WorldView {
        self@
    }

    open spec fn valid(&self) -> bool {
        self.wf()
    }

    fn new_string(&mut self, s: &str) -> (r: Result<Val128, NativeError>) {
        match self.alloc_string(s) {
            Ok(v) => Ok(v),
            Err(_) => Err(NativeError::OutOfMemory),
        }
    }

    fn string_text(&self, v: Val128) -> (t: Option<String>) {
        if !v.tag().is_ref() {
            return None;
        }
        match self.heap.get(v.ref_index()) {
            None => None,
            Some(obj) => match self.registry.get(obj.class) {
                None => None,
                Some(k) => {
                    if same_text(k.name.as_str(), "java/lang/String") {
                        match self.heap.text(v.ref_index()) {
                            Some(t) => Some(t.to_string()),
                            None => None,
                        }
                    } else {
                        None
                    }
                },
            },
        }
    }

    fn print(&mut self, s: &str) {
        self.write_output(s);
    }

    fn get_field(&self, obj: Val128, slot: u16) -> (r: Result<Val128, NativeError>) {
        if obj.tag() == Tag::Null {
            return Err(NativeError::NullPointer);
        }
        match self.heap.get_field(obj.ref_index(), slot as usize) {
            Some(v) => Ok(v),
            None => Err(NativeError::BadValue),
        }
    }

    fn set_field(&mut self, obj: Val128, slot: u16, v: Val128) -> (r: Result<(), NativeError>) {
        if obj.tag() == Tag::Null {
            return Err(NativeError::NullPointer);
        }
        if self.heap.set_field(obj.ref_index(), slot as usize, v) {
            Ok(())
        } else {
            Err(NativeError::BadValue)
        }
    }

    fn class_name_of(&self, v: Val128) -> (t: Option<String>) {
        match self.heap.get(v.ref_index()) {
            None => None,
            Some(obj) => match self.registry.get(obj.class) {
                None => None,
                Some(k) => Some(k.name.clone()),
            },
        }
    }
}

/// The same literal yields the same reference: interning again, whatever else was interned in
/// between, gives what the first interning gave.
pub proof fn lemma_interning_is_stable(w: WorldView, text: Seq<char>, other: Seq<char>)
    requires
        w.string_interned(text).1 is Ok,
    ensures
        ({
            let (w1, first) = w.string_interned(text);
            &&& w1.string_interned(text) == (w1, first)
            &&& w1.string_interned(other).0.string_interned(text).1 == first
        }),
{
    let (w1, first) = w.string_interned(text);
    if interned_from(w.interned, text, 0) is None {
        lemma_interned_pushed(w.interned, text, first->Ok_0, text, 0);
    }
    assert(interned_from(w1.interned, text, 0) == Some(first->Ok_0));
    let (w2, second) = w1.string_interned(other);
    if interned_from(w1.interned, other, 0) is None && second is Ok {
        lemma_interned_pushed(w1.interned, other, second->Ok_0, text, 0);
    }
}

/// A literal that is interned for the first time becomes a shared string with its text, pinned by
/// one reference that nobody else holds.
pub proof fn lemma_interned_strings_are_pinned(w: WorldView, text: Seq<char>)
    requires
        w.heap.wf(),
        w.heap.slots.len() < u32::MAX,
        interned_from(w.interned, text, 0) is None,
        w.string_interned(text).1 is Ok,
    ensures
        ({
            let (w1, r) = w.string_interned(text);
            let o = w1.heap.object(r->Ok_0.ref_index());
            o is Some && o->0.text == Some(text) && o->0.rc == 1 && o->0.escape is S2
        }),
{
    broadcast use crate::value::group_values;

    let r = w.heap.next_ref();
    if w.heap.free.len() > 0 {
        assert(w.heap.free[w.heap.free.len() - 1] == w.heap.free.last());
    }
}

/// One more interned string takes no text from another.
pub proof fn lemma_interned_pushed(
    pool: Seq<(Seq<char>, Val128)>,
    text: Seq<char>,
    v: Val128,
    asked: Seq<char>,
    i: int,
)
    requires
        0 <= i <= pool.len(),
    ensures
        interned_from(pool.push((text, v)), asked, i) == (match interned_from(pool, asked, i) {
            Some(x) => Some(x),
            None => if asked == text {
                Some(v)
            } else {
                None
            },
        }),
    decreases pool.len() - i,
{
    let more = pool.push((text, v));
    if i < pool.len() {
        lemma_interned_pushed(pool, text, v, asked, i + 1);
        assert(more[i] == pool[i]);
    } else {
        assert(more[i] == (text, v));
        assert(interned_from(more, asked, i + 1) is None);
    }
}

} // verus!
