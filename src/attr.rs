use vstd::prelude::*;
use vstd::string::StringSliceAdditionalSpecFns;

use crate::be::{read_be16, spec_be16};
use crate::buf::{bytes_as_slice, bytes_eq, bytes_slice, bytes_view, JStr};
use crate::error::ClassError;
use crate::idx::{ClassInfo, ConstVal, Index, NameAndType, UseIndex, Utf8};
use crate::iter::{spec_utf8, AttrInfo};
use crate::jtype::{OfClass, OfField, OfMethod};
use crate::pool::{spec_lookup_error, spec_type_name, ClassPool, Entry, JVal};

verus! {

/// The attributes that the decoder recognizes by name.
#[derive(PartialEq, Eq, Structural, Clone, Copy, Debug)]
pub enum JAttr {
    AnnotationDefault,
    BootstrapMethods,
    ConstantValue,
    Code,
    Deprecated,
    EnclosingMethod,
    Exceptions,
    InnerClasses,
    LineNumberTable,
    LocalVariableTable,
    LocalVariableTypeTable,
    MethodParameters,
    Module,
    ModuleMainClass,
    ModulePackages,
    NestHost,
    NestMembers,
    PermittedSubclasses,
    Record,
    RuntimeInvisibleAnnotations,
    RuntimeInvisibleParameterAnnotations,
    RuntimeInvisibleTypeAnnotations,
    RuntimeVisibleAnnotations,
    RuntimeVisibleParameterAnnotations,
    RuntimeVisibleTypeAnnotations,
    Signature,
    SourceDebugExtension,
    SourceFile,
    StackMapTable,
    Synthetic,
    /// A name that is not recognized, or not allowed in the context.
    Unsupported,
}

/// The attribute that a name denotes, whatever the context.
pub open spec fn spec_attr_of_name(name: Seq<u8>) -> JAttr {
    if name == "AnnotationDefault".spec_bytes() {
        JAttr::AnnotationDefault
    } else if name == "BootstrapMethods".spec_bytes() {
        JAttr::BootstrapMethods
    } else if name == "ConstantValue".spec_bytes() {
        JAttr::ConstantValue
    } else if name == "Code".spec_bytes() {
        JAttr::Code
    } else if name == "Deprecated".spec_bytes() {
        JAttr::Deprecated
    } else if name == "EnclosingMethod".spec_bytes() {
        JAttr::EnclosingMethod
    } else if name == "Exceptions".spec_bytes() {
        JAttr::Exceptions
    } else if name == "InnerClasses".spec_bytes() {
        JAttr::InnerClasses
    } else if name == "LineNumberTable".spec_bytes() {
        JAttr::LineNumberTable
    } else if name == "LocalVariableTable".spec_bytes() {
        JAttr::LocalVariableTable
    } else if name == "LocalVariableTypeTable".spec_bytes() {
        JAttr::LocalVariableTypeTable
    } else if name == "MethodParameters".spec_bytes() {
        JAttr::MethodParameters
    } else if name == "Module".spec_bytes() {
        JAttr::Module
    } else if name == "ModuleMainClass".spec_bytes() {
        JAttr::ModuleMainClass
    } else if name == "ModulePackages".spec_bytes() {
        JAttr::ModulePackages
    } else if name == "NestHost".spec_bytes() {
        JAttr::NestHost
    } else if name == "NestMembers".spec_bytes() {
        JAttr::NestMembers
    } else if name == "PermittedSubclasses".spec_bytes() {
        JAttr::PermittedSubclasses
    } else if name == "Record".spec_bytes() {
        JAttr::Record
    } else if name == "RuntimeInvisibleAnnotations".spec_bytes() {
        JAttr::RuntimeInvisibleAnnotations
    } else if name == "RuntimeInvisibleParameterAnnotations".spec_bytes() {
        JAttr::RuntimeInvisibleParameterAnnotations
    } else if name == "RuntimeInvisibleTypeAnnotations".spec_bytes() {
        JAttr::RuntimeInvisibleTypeAnnotations
    } else if name == "RuntimeVisibleAnnotations".spec_bytes() {
        JAttr::RuntimeVisibleAnnotations
    } else if name == "RuntimeVisibleParameterAnnotations".spec_bytes() {
        JAttr::RuntimeVisibleParameterAnnotations
    } else if name == "RuntimeVisibleTypeAnnotations".spec_bytes() {
        JAttr::RuntimeVisibleTypeAnnotations
    } else if name == "Signature".spec_bytes() {
        JAttr::Signature
    } else if name == "SourceDebugExtension".spec_bytes() {
        JAttr::SourceDebugExtension
    } else if name == "SourceFile".spec_bytes() {
        JAttr::SourceFile
    } else if name == "StackMapTable".spec_bytes() {
        JAttr::StackMapTable
    } else if name == "Synthetic".spec_bytes() {
        JAttr::Synthetic
    } else {
        JAttr::Unsupported
    }
}

impl JAttr {
    /// The attribute that a name denotes, whatever the context.
    pub fn from_name(value: &[u8]) -> (r: JAttr)
        ensures
            r == spec_attr_of_name(value@),
    {
        if bytes_eq(value, "AnnotationDefault".as_bytes()) {
            JAttr::AnnotationDefault
        } else if bytes_eq(value, "BootstrapMethods".as_bytes()) {
            JAttr::BootstrapMethods
        } else if bytes_eq(value, "ConstantValue".as_bytes()) {
            JAttr::ConstantValue
        } else if bytes_eq(value, "Code".as_bytes()) {
            JAttr::Code
        } else if bytes_eq(value, "Deprecated".as_bytes()) {
            JAttr::Deprecated
        } else if bytes_eq(value, "EnclosingMethod".as_bytes()) {
            JAttr::EnclosingMethod
        } else if bytes_eq(value, "Exceptions".as_bytes()) {
            JAttr::Exceptions
        } else if bytes_eq(value, "InnerClasses".as_bytes()) {
            JAttr::InnerClasses
        } else if bytes_eq(value, "LineNumberTable".as_bytes()) {
            JAttr::LineNumberTable
        } else if bytes_eq(value, "LocalVariableTable".as_bytes()) {
            JAttr::LocalVariableTable
        } else if bytes_eq(value, "LocalVariableTypeTable".as_bytes()) {
            JAttr::LocalVariableTypeTable
        } else if bytes_eq(value, "MethodParameters".as_bytes()) {
            JAttr::MethodParameters
        } else if bytes_eq(value, "Module".as_bytes()) {
            JAttr::Module
        } else if bytes_eq(value, "ModuleMainClass".as_bytes()) {
            JAttr::ModuleMainClass
        } else if bytes_eq(value, "ModulePackages".as_bytes()) {
            JAttr::ModulePackages
        } else if bytes_eq(value, "NestHost".as_bytes()) {
            JAttr::NestHost
        } else if bytes_eq(value, "NestMembers".as_bytes()) {
            JAttr::NestMembers
        } else if bytes_eq(value, "PermittedSubclasses".as_bytes()) {
            JAttr::PermittedSubclasses
        } else if bytes_eq(value, "Record".as_bytes()) {
            JAttr::Record
        } else if bytes_eq(value, "RuntimeInvisibleAnnotations".as_bytes()) {
            JAttr::RuntimeInvisibleAnnotations
        } else if bytes_eq(value, "RuntimeInvisibleParameterAnnotations".as_bytes()) {
            JAttr::RuntimeInvisibleParameterAnnotations
        } else if bytes_eq(value, "RuntimeInvisibleTypeAnnotations".as_bytes()) {
            JAttr::RuntimeInvisibleTypeAnnotations
        } else if bytes_eq(value, "RuntimeVisibleAnnotations".as_bytes()) {
            JAttr::RuntimeVisibleAnnotations
        } else if bytes_eq(value, "RuntimeVisibleParameterAnnotations".as_bytes()) {
            JAttr::RuntimeVisibleParameterAnnotations
        } else if bytes_eq(value, "RuntimeVisibleTypeAnnotations".as_bytes()) {
            JAttr::RuntimeVisibleTypeAnnotations
        } else if bytes_eq(value, "Signature".as_bytes()) {
            JAttr::Signature
        } else if bytes_eq(value, "SourceDebugExtension".as_bytes()) {
            JAttr::SourceDebugExtension
        } else if bytes_eq(value, "SourceFile".as_bytes()) {
            JAttr::SourceFile
        } else if bytes_eq(value, "StackMapTable".as_bytes()) {
            JAttr::StackMapTable
        } else if bytes_eq(value, "Synthetic".as_bytes()) {
            JAttr::Synthetic
        } else {
            JAttr::Unsupported
        }
    }
}

/// A context's set of legal attributes.
pub trait AttrMatch {
    spec fn spec_matches(a: JAttr) -> bool;

    fn matches(a: &JAttr) -> (r: bool)
        ensures
            r == Self::spec_matches(*a),
    ;
}

impl AttrMatch for OfField {
    open spec fn spec_matches(a: JAttr) -> bool {
        a == JAttr::ConstantValue
            || a == JAttr::Deprecated
            || a == JAttr::RuntimeInvisibleAnnotations
            || a == JAttr::RuntimeInvisibleTypeAnnotations
            || a == JAttr::RuntimeVisibleAnnotations
            || a == JAttr::RuntimeVisibleTypeAnnotations
            || a == JAttr::Signature
            || a == JAttr::Synthetic
    }

    fn matches(a: &JAttr) -> (r: bool) {
        match a {
            JAttr::ConstantValue
            | JAttr::Deprecated
            | JAttr::RuntimeInvisibleAnnotations
            | JAttr::RuntimeInvisibleTypeAnnotations
            | JAttr::RuntimeVisibleAnnotations
            | JAttr::RuntimeVisibleTypeAnnotations
            | JAttr::Signature
            | JAttr::Synthetic => true,
            _ => false,
        }
    }
}

impl AttrMatch for OfMethod {
    open spec fn spec_matches(a: JAttr) -> bool {
        a == JAttr::AnnotationDefault
            || a == JAttr::Code
            || a == JAttr::Deprecated
            || a == JAttr::Exceptions
            || a == JAttr::MethodParameters
            || a == JAttr::RuntimeInvisibleAnnotations
            || a == JAttr::RuntimeInvisibleParameterAnnotations
            || a == JAttr::RuntimeInvisibleTypeAnnotations
            || a == JAttr::RuntimeVisibleAnnotations
            || a == JAttr::RuntimeVisibleParameterAnnotations
            || a == JAttr::RuntimeVisibleTypeAnnotations
            || a == JAttr::Signature
            || a == JAttr::Synthetic
    }

    fn matches(a: &JAttr) -> (r: bool) {
        match a {
            JAttr::AnnotationDefault
            | JAttr::Code
            | JAttr::Deprecated
            | JAttr::Exceptions
            | JAttr::MethodParameters
            | JAttr::RuntimeInvisibleAnnotations
            | JAttr::RuntimeInvisibleParameterAnnotations
            | JAttr::RuntimeInvisibleTypeAnnotations
            | JAttr::RuntimeVisibleAnnotations
            | JAttr::RuntimeVisibleParameterAnnotations
            | JAttr::RuntimeVisibleTypeAnnotations
            | JAttr::Signature
            | JAttr::Synthetic => true,
            _ => false,
        }
    }
}

impl AttrMatch for OfClass {
    open spec fn spec_matches(a: JAttr) -> bool {
        a == JAttr::BootstrapMethods
            || a == JAttr::Deprecated
            || a == JAttr::EnclosingMethod
            || a == JAttr::InnerClasses
            || a == JAttr::Module
            || a == JAttr::ModuleMainClass
            || a == JAttr::ModulePackages
            || a == JAttr::PermittedSubclasses
            || a == JAttr::Record
            || a == JAttr::RuntimeInvisibleAnnotations
            || a == JAttr::RuntimeInvisibleTypeAnnotations
            || a == JAttr::RuntimeVisibleAnnotations
            || a == JAttr::RuntimeVisibleTypeAnnotations
            || a == JAttr::Signature
            || a == JAttr::SourceDebugExtension
            || a == JAttr::SourceFile
            || a == JAttr::Synthetic
    }

    fn matches(a: &JAttr) -> (r: bool) {
        match a {
            JAttr::BootstrapMethods
            | JAttr::Deprecated
            | JAttr::EnclosingMethod
            | JAttr::InnerClasses
            | JAttr::Module
            | JAttr::ModuleMainClass
            | JAttr::ModulePackages
            | JAttr::PermittedSubclasses
            | JAttr::Record
            | JAttr::RuntimeInvisibleAnnotations
            | JAttr::RuntimeInvisibleTypeAnnotations
            | JAttr::RuntimeVisibleAnnotations
            | JAttr::RuntimeVisibleTypeAnnotations
            | JAttr::Signature
            | JAttr::SourceDebugExtension
            | JAttr::SourceFile
            | JAttr::Synthetic => true,
            _ => false,
        }
    }
}

/// The attribute that a name denotes in the context `T`: a name that is
/// unknown, or known only elsewhere, is `Unsupported` rather than an error.
pub open spec fn spec_attr_in<T: AttrMatch>(name: Seq<u8>) -> JAttr {
    if T::spec_matches(spec_attr_of_name(name)) {
        spec_attr_of_name(name)
    } else {
        JAttr::Unsupported
    }
}

/// Classifies a name for the context `T`.
pub fn classify<T: AttrMatch>(value: &[u8]) -> (r: JAttr)
    ensures
        r == spec_attr_in::<T>(value@),
{
    let a = JAttr::from_name(value);
    if T::matches(&a) {
        a
    } else {
        JAttr::Unsupported
    }
}

/// The outcome of resolving a raw UTF-8 index, which must not be zero.
pub open spec fn spec_raw_utf8(entries: Seq<Entry>, raw: u16) -> Result<Seq<u8>, ClassError> {
    if raw == 0 {
        Err(ClassError::ZeroIndex)
    } else {
        spec_utf8(entries, raw)
    }
}

/// What an enclosing-method payload resolves to: the enclosing type's name,
/// and the method's name and descriptor when the method index is not zero.
pub open spec fn spec_enclosing(entries: Seq<Entry>, payload: Seq<u8>) -> Result<(Seq<u8>, Option<(Seq<u8>, Seq<u8>)>), ClassError> {
    if payload.len() < 4 {
        Err(ClassError::Truncated { offset: 0 })
    } else {
        match spec_type_name(entries, spec_be16(payload, 0) as u16) {
            Err(e) => Err(e),
            Ok(c) => {
                let m = spec_be16(payload, 2) as u16;
                if m == 0 {
                    Ok((c, None))
                } else {
                    match spec_lookup_error::<NameAndType>(entries, m) {
                        Some(e) => Err(e),
                        None => match entries[m as int] {
                            Entry::NameAndType(a, b) => match spec_utf8(entries, a) {
                                Err(e) => Err(e),
                                Ok(sa) => match spec_utf8(entries, b) {
                                    Err(e) => Err(e),
                                    Ok(sb) => Ok((c, Some((sa, sb)))),
                                },
                            },
                            _ => Err(ClassError::ZeroIndex),
                        },
                    }
                }
            },
        }
    }
}

fn utf8_at(pool: &ClassPool, raw: u16) -> (r: Result<JStr, ClassError>)
    ensures
        match r {
            Ok(s) => spec_raw_utf8(pool@, raw) == Ok::<Seq<u8>, ClassError>(s@),
            Err(e) => spec_raw_utf8(pool@, raw) == Err::<Seq<u8>, ClassError>(e),
        },
{
    pool.get_::<Utf8>(raw)
}

impl<T: AttrMatch> AttrInfo<T> {
    /// What the attribute is in its context, by its name.
    pub fn kind(&self) -> (r: Result<JAttr, ClassError>)
        ensures
            match spec_utf8(self.pool_view(), self.name_view()) {
                Ok(s) => r == Ok::<JAttr, ClassError>(spec_attr_in::<T>(s)),
                Err(e) => r == Err::<JAttr, ClassError>(e),
            },
    {
        match self.name() {
            Ok(s) => Ok(classify::<T>(s.as_slice())),
            Err(e) => Err(e),
        }
    }
}

impl<T> AttrInfo<T> {
    /// Decodes a constant-value payload: the constant it refers to.
    pub fn constant_value(&self) -> (r: Result<JVal, ClassError>)
        ensures
            self.payload_view().len() < 2 ==> r == Err::<JVal, ClassError>(ClassError::Truncated { offset: 0 }),
            self.payload_view().len() >= 2 ==> ({
                let raw = spec_be16(self.payload_view(), 0) as u16;
                &&& raw == 0 ==> r == Err::<JVal, ClassError>(ClassError::ZeroIndex)
                &&& raw != 0 ==> match r {
                    Ok(v) => spec_lookup_error::<ConstVal>(self.pool_view(), raw) is None
                        && ConstVal::yields(self.pool_view()[raw as int], v),
                    Err(e) => spec_lookup_error::<ConstVal>(self.pool_view(), raw) == Some(e),
                }
            }),
    {
        let p = self.payload();
        let b = p.as_slice();
        if b.len() < 2 {
            return Err(ClassError::Truncated { offset: 0 });
        }
        self.pool().get_::<ConstVal>(read_be16(b, 0))
    }

    /// Decodes a signature payload: the signature string.
    pub fn signature(&self) -> (r: Result<JStr, ClassError>)
        ensures
            self.payload_view().len() < 2 ==> r == Err::<JStr, ClassError>(ClassError::Truncated { offset: 0 }),
            self.payload_view().len() >= 2 ==> match r {
                Ok(s) => spec_raw_utf8(self.pool_view(), spec_be16(self.payload_view(), 0) as u16) == Ok::<Seq<u8>, ClassError>(s@),
                Err(e) => spec_raw_utf8(self.pool_view(), spec_be16(self.payload_view(), 0) as u16) == Err::<Seq<u8>, ClassError>(e),
            },
    {
        let p = self.payload();
        let b = p.as_slice();
        if b.len() < 2 {
            return Err(ClassError::Truncated { offset: 0 });
        }
        utf8_at(self.pool(), read_be16(b, 0))
    }

    /// Decodes a source-file payload: the source file's name.
    pub fn source_file(&self) -> (r: Result<JStr, ClassError>)
        ensures
            self.payload_view().len() < 2 ==> r == Err::<JStr, ClassError>(ClassError::Truncated { offset: 0 }),
            self.payload_view().len() >= 2 ==> match r {
                Ok(s) => spec_raw_utf8(self.pool_view(), spec_be16(self.payload_view(), 0) as u16) == Ok::<Seq<u8>, ClassError>(s@),
                Err(e) => spec_raw_utf8(self.pool_view(), spec_be16(self.payload_view(), 0) as u16) == Err::<Seq<u8>, ClassError>(e),
            },
    {
        let p = self.payload();
        let b = p.as_slice();
        if b.len() < 2 {
            return Err(ClassError::Truncated { offset: 0 });
        }
        utf8_at(self.pool(), read_be16(b, 0))
    }

    /// Decodes a source-debug-extension payload: its bytes, as text.
    pub fn source_debug_extension(&self) -> (r: JStr)
        ensures
            r@ == self.payload_view(),
    {
        self.payload()
    }

    /// Decodes an enclosing-method payload.
    pub fn enclosing_method(&self) -> (r: Result<(JStr, Option<(JStr, JStr)>), ClassError>)
        ensures
            match r {
                Ok((c, None)) => spec_enclosing(self.pool_view(), self.payload_view()) == Ok::<(Seq<u8>, Option<(Seq<u8>, Seq<u8>)>), ClassError>((c@, None)),
                Ok((c, Some((a, b)))) => spec_enclosing(self.pool_view(), self.payload_view()) == Ok::<(Seq<u8>, Option<(Seq<u8>, Seq<u8>)>), ClassError>((c@, Some((a@, b@)))),
                Err(e) => spec_enclosing(self.pool_view(), self.payload_view()) == Err::<(Seq<u8>, Option<(Seq<u8>, Seq<u8>)>), ClassError>(e),
            },
    {
        let p = self.payload();
        let b = p.as_slice();
        if b.len() < 4 {
            return Err(ClassError::Truncated { offset: 0 });
        }
        let pool = self.pool();
        let c = match pool.class_name_at(read_be16(b, 0)) {
            Ok(c) => c,
            Err(e) => return Err(e),
        };
        let m = match Index::<NameAndType>::maybe(read_be16(b, 2)) {
            None => return Ok((c, None)),
            Some(m) => m,
        };
        let (mn, mt) = match pool.get(m) {
            Ok(x) => x,
            Err(e) => return Err(e),
        };
        let a = match pool.get(mn) {
            Ok(a) => a,
            Err(e) => return Err(e),
        };
        let d = match pool.get(mt) {
            Ok(d) => d,
            Err(e) => return Err(e),
        };
        Ok((c, Some((a, d))))
    }

    /// Decodes an inner-classes payload into a walk over its records.
    pub fn inner_classes(&self) -> (r: Result<InnerClassIter, ClassError>)
        ensures
            self.payload_view().len() < 2 ==> r == Err::<InnerClassIter, ClassError>(ClassError::Truncated { offset: 0 }),
            self.payload_view().len() >= 2 ==> (r matches Ok(it)
                && it.rest() == self.payload_view().subrange(2, self.payload_view().len() as int)
                && it.remaining() == spec_be16(self.payload_view(), 0)
                && it.pool_view() == self.pool_view()),
    {
        let p = self.payload();
        let b = p.as_slice();
        if b.len() < 2 {
            return Err(ClassError::Truncated { offset: 0 });
        }
        let n = read_be16(b, 0);
        let whole = self.payload_bytes();
        let rest = bytes_slice(&whole, 2, b.len());
        Ok(InnerClassIter { b: rest, pool: self.pool().share(), left: n })
    }
}

/// One record of an inner-classes payload.
pub struct InnerClass {
    inner_class: Index<ClassInfo>,
    outer_class: Option<Index<ClassInfo>>,
    name: Option<Index<Utf8>>,
    access_flags: u16,
}

impl View for InnerClass {
    /// The raw indices (zero where absent) and the access flags.
    type V = (u16, u16, u16, u16);

    closed spec fn view(&self) -> (u16, u16, u16, u16) {
        (
            self.inner_class@,
            match self.outer_class {
                Some(i) => i@,
                None => 0,
            },
            match self.name {
                Some(i) => i@,
                None => 0,
            },
            self.access_flags,
        )
    }
}

impl InnerClass {
    /// The inner type's reference.
    pub fn inner_class(&self) -> (r: Index<ClassInfo>)
        ensures
            r@ == self@.0,
    {
        self.inner_class
    }

    /// The outer type's reference, absent for a type that is not a member.
    pub fn outer_class(&self) -> (r: Option<Index<ClassInfo>>)
        ensures
            self@.1 == 0 <==> r is None,
            r matches Some(i) ==> i@ == self@.1,
    {
        match self.outer_class {
            Some(i) => {
                let _ = i.get();
                Some(i)
            },
            None => None,
        }
    }

    /// The simple name, absent for an anonymous type.
    pub fn name(&self) -> (r: Option<Index<Utf8>>)
        ensures
            self@.2 == 0 <==> r is None,
            r matches Some(i) ==> i@ == self@.2,
    {
        match self.name {
            Some(i) => {
                let _ = i.get();
                Some(i)
            },
            None => None,
        }
    }

    /// The access flags.
    pub fn access_flags(&self) -> (r: u16)
        ensures
            r == self@.3,
    {
        self.access_flags
    }
}

/// A walk over the fixed-size records of an inner-classes payload. It stops
/// after the first error.
pub struct InnerClassIter {
    b: bytes::Bytes,
    pool: ClassPool,
    left: u16,
}

impl InnerClassIter {
    /// The bytes of the records not yet yielded.
    pub closed spec fn rest(&self) -> Seq<u8> {
        bytes_view(self.b)
    }

    /// The number of records not yet yielded.
    pub closed spec fn remaining(&self) -> nat {
        self.left as nat
    }

    pub closed spec fn pool_view(&self) -> Seq<Entry> {
        self.pool@
    }

    /// The pool that the records' indices resolve against.
    pub fn pool(&self) -> (r: &ClassPool)
        ensures
            r@ == self.pool_view(),
    {
        &self.pool
    }

    /// The next record, or `None` once the declared count is reached.
    pub fn next(&mut self) -> (r: Option<Result<InnerClass, ClassError>>)
        ensures
            (r is None) <==> old(self).remaining() == 0,
            final(self).pool_view() == old(self).pool_view(),
            r is None ==> final(self).remaining() == 0,
            r matches Some(Ok(ic)) ==> {
                let d = old(self).rest();
                &&& d.len() >= 8
                &&& ic@ == (spec_be16(d, 0) as u16, spec_be16(d, 2) as u16, spec_be16(d, 4) as u16, spec_be16(d, 6) as u16)
                &&& final(self).rest() == d.subrange(8, d.len() as int)
                &&& final(self).remaining() == old(self).remaining() - 1
            },
            r matches Some(Err(e)) ==> {
                &&& final(self).remaining() == 0
                &&& old(self).rest().len() < 8 ==> e == ClassError::Truncated { offset: 0 }
                &&& old(self).rest().len() >= 8 ==> e == ClassError::ZeroIndex && spec_be16(old(self).rest(), 0) == 0
            },
    {
        if self.left == 0 {
            return None;
        }
        let data = bytes_as_slice(&self.b);
        if data.len() < 8 {
            self.left = 0;
            return Some(Err(ClassError::Truncated { offset: 0 }));
        }
        let inner = read_be16(data, 0);
        let outer = read_be16(data, 2);
        let name = read_be16(data, 4);
        let access_flags = read_be16(data, 6);
        if inner == 0 {
            self.left = 0;
            return Some(Err(ClassError::ZeroIndex));
        }
        let rest = bytes_slice(&self.b, 8, data.len());
        self.b = rest;
        self.left = self.left - 1;
        Some(Ok(InnerClass {
            inner_class: Index::from_nonzero(inner),
            outer_class: Index::maybe(outer),
            name: Index::maybe(name),
            access_flags,
        }))
    }
}

} // verus!
