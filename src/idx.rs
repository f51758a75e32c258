use vstd::prelude::*;
use core::marker::PhantomData;

use crate::buf::JStr;
use crate::error::Category;
use crate::pool::{Entry, JVal, PoolItem};

verus! {

// The category markers below appear only as type parameters; their single
// value is never built.

/// Marks an index into a UTF-8 entry.
pub enum Utf8 {
    Marker,
}

/// Marks an index into a name-and-type entry.
pub enum NameAndType {
    Marker,
}

/// Marks an index into a field-reference entry.
pub enum FieldRef {
    Marker,
}

/// Marks an index into a method-reference entry.
pub enum MethodRef {
    Marker,
}

/// Marks an index into an interface-method-reference entry.
pub enum InterfaceMethodRef {
    Marker,
}

/// Marks an index into a method-reference or interface-method-reference entry.
pub enum AnyMethodRef {
    Marker,
}

/// Marks an index into a type-reference entry.
pub enum ClassInfo {
    Marker,
}

/// Marks an index into a constant (int, float, long, double or string) entry.
pub enum ConstVal {
    Marker,
}

/// A non-zero pool index that may only resolve to entries of the category `R`.
pub struct Index<R> {
    value: u16,
    _t: PhantomData<R>,
}

impl<R> View for Index<R> {
    type V = u16;

    closed spec fn view(&self) -> u16 {
        self.value
    }
}

impl<R> Clone for Index<R> {
    fn clone(&self) -> (r: Self)
        ensures
            r@ == self@,
    {
        *self
    }
}

impl<R> Copy for Index<R> {
}

impl<R> Index<R> {
    #[verifier::type_invariant]
    spec fn nonzero(self) -> bool {
        self.value != 0
    }

    /// The index with the given value, absent when the value is zero.
    pub fn maybe(value: u16) -> (r: Option<Self>)
        ensures
            value == 0 ==> r is None,
            value != 0 ==> (r matches Some(i) && i@ == value),
    {
        if value == 0 {
            None
        } else {
            Some(Index { value, _t: PhantomData })
        }
    }

    /// The index with a value known to be non-zero.
    pub fn from_nonzero(value: u16) -> (r: Self)
        requires
            value != 0,
        ensures
            r@ == value,
    {
        Index { value, _t: PhantomData }
    }

    /// The raw value, never zero.
    pub fn get(&self) -> (r: u16)
        ensures
            r == self@,
            r != 0,
    {
        proof {
            use_type_invariant(self);
        }
        self.value
    }
}

/// A category of pool entries: which entries it accepts, and what a lookup
/// through an index of it yields.
pub trait UseIndex: Sized {
    type Out;

    /// The category's name in errors.
    spec fn spec_category() -> Category;

    /// Whether an entry belongs to the category.
    spec fn accepts(e: Entry) -> bool;

    /// Whether `out` is what a lookup yields on the entry `e`.
    spec fn yields(e: Entry, out: Self::Out) -> bool;

    fn category() -> (r: Category)
        ensures
            r == Self::spec_category(),
    ;

    fn at(item: &PoolItem) -> (r: Option<Self::Out>)
        ensures
            r is Some <==> Self::accepts(item@),
            r matches Some(o) ==> Self::yields(item@, o),
    ;

    /// No category accepts the empty slot or the slot after a wide entry.
    proof fn lemma_rejects_placeholders()
        ensures
            !Self::accepts(Entry::Empty),
            !Self::accepts(Entry::Reserved),
    ;
}

impl UseIndex for Utf8 {
    type Out = JStr;

    open spec fn spec_category() -> Category {
        Category::Utf8
    }

    open spec fn accepts(e: Entry) -> bool {
        e is Utf8
    }

    open spec fn yields(e: Entry, out: JStr) -> bool {
        e == Entry::Utf8(out@)
    }

    fn category() -> (r: Category) {
        Category::Utf8
    }

    fn at(item: &PoolItem) -> (r: Option<JStr>) {
        match item {
            PoolItem::Utf8(s) => Some(s.share()),
            _ => None,
        }
    }

    proof fn lemma_rejects_placeholders() {
    }
}

impl UseIndex for NameAndType {
    type Out = (Index<Utf8>, Index<Utf8>);

    open spec fn spec_category() -> Category {
        Category::NameAndType
    }

    open spec fn accepts(e: Entry) -> bool {
        e is NameAndType
    }

    open spec fn yields(e: Entry, out: Self::Out) -> bool {
        e == Entry::NameAndType(out.0@, out.1@)
    }

    fn category() -> (r: Category) {
        Category::NameAndType
    }

    fn at(item: &PoolItem) -> (r: Option<Self::Out>) {
        match item {
            PoolItem::NameAndType(a, b) => Some((*a, *b)),
            _ => None,
        }
    }

    proof fn lemma_rejects_placeholders() {
    }
}

impl UseIndex for FieldRef {
    type Out = (Index<ClassInfo>, Index<NameAndType>);

    open spec fn spec_category() -> Category {
        Category::FieldRef
    }

    open spec fn accepts(e: Entry) -> bool {
        e is RefField
    }

    open spec fn yields(e: Entry, out: Self::Out) -> bool {
        e == Entry::RefField(out.0@, out.1@)
    }

    fn category() -> (r: Category) {
        Category::FieldRef
    }

    fn at(item: &PoolItem) -> (r: Option<Self::Out>) {
        match item {
            PoolItem::RefField(a, b) => Some((*a, *b)),
            _ => None,
        }
    }

    proof fn lemma_rejects_placeholders() {
    }
}

impl UseIndex for MethodRef {
    type Out = (Index<ClassInfo>, Index<NameAndType>);

    open spec fn spec_category() -> Category {
        Category::MethodRef
    }

    open spec fn accepts(e: Entry) -> bool {
        e is RefMethod
    }

    open spec fn yields(e: Entry, out: Self::Out) -> bool {
        e == Entry::RefMethod(out.0@, out.1@)
    }

    fn category() -> (r: Category) {
        Category::MethodRef
    }

    fn at(item: &PoolItem) -> (r: Option<Self::Out>) {
        match item {
            PoolItem::RefMethod(a, b) => Some((*a, *b)),
            _ => None,
        }
    }

    proof fn lemma_rejects_placeholders() {
    }
}

impl UseIndex for InterfaceMethodRef {
    type Out = (Index<ClassInfo>, Index<NameAndType>);

    open spec fn spec_category() -> Category {
        Category::InterfaceMethodRef
    }

    open spec fn accepts(e: Entry) -> bool {
        e is RefInterfaceMethod
    }

    open spec fn yields(e: Entry, out: Self::Out) -> bool {
        e == Entry::RefInterfaceMethod(out.0@, out.1@)
    }

    fn category() -> (r: Category) {
        Category::InterfaceMethodRef
    }

    fn at(item: &PoolItem) -> (r: Option<Self::Out>) {
        match item {
            PoolItem::RefInterfaceMethod(a, b) => Some((*a, *b)),
            _ => None,
        }
    }

    proof fn lemma_rejects_placeholders() {
    }
}

impl UseIndex for AnyMethodRef {
    /// Whether the reference is interface-style, and the pair it holds.
    type Out = (bool, Index<ClassInfo>, Index<NameAndType>);

    open spec fn spec_category() -> Category {
        Category::AnyMethodRef
    }

    open spec fn accepts(e: Entry) -> bool {
        e is RefMethod || e is RefInterfaceMethod
    }

    open spec fn yields(e: Entry, out: Self::Out) -> bool {
        if out.0 {
            e == Entry::RefInterfaceMethod(out.1@, out.2@)
        } else {
            e == Entry::RefMethod(out.1@, out.2@)
        }
    }

    fn category() -> (r: Category) {
        Category::AnyMethodRef
    }

    fn at(item: &PoolItem) -> (r: Option<Self::Out>) {
        match item {
            PoolItem::RefMethod(a, b) => Some((false, *a, *b)),
            PoolItem::RefInterfaceMethod(a, b) => Some((true, *a, *b)),
            _ => None,
        }
    }

    proof fn lemma_rejects_placeholders() {
    }
}

impl UseIndex for ClassInfo {
    type Out = Index<Utf8>;

    open spec fn spec_category() -> Category {
        Category::ClassInfo
    }

    open spec fn accepts(e: Entry) -> bool {
        e is Class
    }

    open spec fn yields(e: Entry, out: Index<Utf8>) -> bool {
        e == Entry::Class(out@)
    }

    fn category() -> (r: Category) {
        Category::ClassInfo
    }

    fn at(item: &PoolItem) -> (r: Option<Index<Utf8>>) {
        match item {
            PoolItem::Class(a) => Some(*a),
            _ => None,
        }
    }

    proof fn lemma_rejects_placeholders() {
    }
}

impl UseIndex for ConstVal {
    type Out = JVal;

    open spec fn spec_category() -> Category {
        Category::ConstVal
    }

    open spec fn accepts(e: Entry) -> bool {
        e is Int || e is Float || e is Long || e is Double || e is String
    }

    open spec fn yields(e: Entry, out: JVal) -> bool {
        match out {
            JVal::Int(x) => e == Entry::Int(x),
            JVal::Float(x) => e == Entry::Float(x),
            JVal::Long(x) => e == Entry::Long(x),
            JVal::Double(x) => e == Entry::Double(x),
            JVal::Str(i) => e == Entry::String(i@),
        }
    }

    fn category() -> (r: Category) {
        Category::ConstVal
    }

    fn at(item: &PoolItem) -> (r: Option<JVal>) {
        match item {
            PoolItem::Int(x) => Some(JVal::Int(*x)),
            PoolItem::Float(x) => Some(JVal::Float(*x)),
            PoolItem::Long(x) => Some(JVal::Long(*x)),
            PoolItem::Double(x) => Some(JVal::Double(*x)),
            PoolItem::String(x) => Some(JVal::Str(*x)),
            _ => None,
        }
    }

    proof fn lemma_rejects_placeholders() {
    }
}

} // verus!
