//! Builtin classes and their native methods, as data. The class registry takes them like any other
//! class; the interpreter runs their methods through the narrow [`NativeEnv`].

use vstd::prelude::*;
use crate::value::Val128;
use crate::world::WorldView;

verus! {

/// A failure inside a native method.
#[derive(Debug, Clone, Copy, PartialEq, Eq, Structural)]
pub enum NativeError {
    OutOfMemory,
    NullPointer,
    /// A value of the wrong shape reached a native method.
    BadValue,
}

/// The capabilities a native method has over the running engine.
///
/// Deliberately narrow: a native method can allocate and read builtin objects, touch fields by
/// absolute slot, and write to the guest's standard output.
pub trait NativeEnv: Sized {
    /// The state that the methods act on.
    spec fn world(&self) -> WorldView;

    /// Whether the state is one that running can lead to.
    spec fn valid(&self) -> bool;

    /// Allocate a guest `java.lang.String` holding `s`.
    fn new_string(&mut self, s: &str) -> (r: Result<Val128, NativeError>)
        requires
            old(self).valid(),
        ensures
            final(self).valid(),
            (final(self).world(), r) == old(self).world().native_string(s@),
    ;

    /// The text of a guest `String` reference, or `None` if it is not one.
    fn string_text(&self, v: Val128) -> (t: Option<String>)
        requires
            self.valid(),
        ensures
            match self.world().text_of_value(v) {
                Some(s) => t is Some && t->0@ == s,
                None => t is None,
            },
    ;

    /// Write to the guest's standard output.
    fn print(&mut self, s: &str)
        requires
            old(self).valid(),
        ensures
            final(self).valid(),
            final(self).world() == old(self).world().printed(s@),
    ;

    /// Read an instance field by absolute slot.
    fn get_field(&self, obj: Val128, slot: u16) -> (r: Result<Val128, NativeError>)
        requires
            self.valid(),
        ensures
            r == self.world().native_field(obj, slot),
    ;

    /// Write an instance field by absolute slot.
    fn set_field(&mut self, obj: Val128, slot: u16, v: Val128) -> (r: Result<(), NativeError>)
        requires
            old(self).valid(),
        ensures
            final(self).valid(),
            (final(self).world(), r) == old(self).world().native_field_set(obj, slot, v),
    ;

    /// The runtime class name of a reference.
    fn class_name_of(&self, v: Val128) -> (t: Option<String>)
        requires
            self.valid(),
        ensures
            match self.world().class_name_of_value(v) {
                Some(s) => t is Some && t->0@ == s,
                None => t is None,
            },
    ;
}

/// A native method body, by name.
#[derive(Debug, Clone, Copy, PartialEq, Eq, Structural)]
pub enum NativeFn {
    ObjectInit,
    ObjectHashCode,
    ObjectEquals,
    StringLength,
    StringCharAt,
    StringIsEmpty,
    StringHashCode,
    StringEquals,
    StringConcat,
    StringToString,
    PrintlnString,
    PrintlnInt,
    PrintlnLong,
    PrintlnBoolean,
    PrintlnChar,
    PrintString,
    PrintInt,
}

/// One method of a builtin class.
#[derive(Clone, Copy)]
pub struct BuiltinMethod {
    pub name: &'static str,
    pub descriptor: &'static str,
    /// `true` for `static`; instance methods are virtually dispatched like any other.
    pub is_static: bool,
    pub body: NativeFn,
}

/// What a builtin method holds.
pub struct BuiltinMethodView {
    pub name: Seq<char>,
    pub descriptor: Seq<char>,
    pub is_static: bool,
    pub body: NativeFn,
}

impl View for BuiltinMethod {
    type V = BuiltinMethodView;

    open spec fn view(&self) -> BuiltinMethodView {
        BuiltinMethodView {
            name: self.name@,
            descriptor: self.descriptor@,
            is_static: self.is_static,
            body: self.body,
        }
    }
}

/// A class provided by the engine rather than loaded from a class file.
pub struct BuiltinClass {
    pub name: &'static str,
    /// `None` for `java/lang/Object`, which has no superclass.
    pub super_name: Option<&'static str>,
    /// Instance fields, in declaration order: `(name, descriptor)`.
    pub fields: Vec<(&'static str, &'static str)>,
    /// Static fields, in declaration order: `(name, descriptor)`.
    pub statics: Vec<(&'static str, &'static str)>,
    pub methods: Vec<BuiltinMethod>,
}

/// What a builtin class holds.
#[verifier::ext_equal]
pub struct BuiltinView {
    pub name: Seq<char>,
    pub super_name: Option<Seq<char>>,
    pub fields: Seq<(Seq<char>, Seq<char>)>,
    pub statics: Seq<(Seq<char>, Seq<char>)>,
    pub methods: Seq<BuiltinMethodView>,
}

/// Names and descriptors.
pub open spec fn pair_views(s: Seq<(&'static str, &'static str)>) -> Seq<(Seq<char>, Seq<char>)> {
    Seq::new(s.len(), |i: int| (s[i].0@, s[i].1@))
}

impl View for BuiltinClass {
    type V = BuiltinView;

    open spec fn view(&self) -> BuiltinView {
        BuiltinView {
            name: self.name@,
            super_name: match self.super_name {
                Some(s) => Some(s@),
                None => None,
            },
            fields: pair_views(self.fields@),
            statics: pair_views(self.statics@),
            methods: Seq::new(self.methods@.len(), |i: int| self.methods@[i]@),
        }
    }
}

} // verus!
