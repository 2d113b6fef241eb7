//! The text of an implementation of [`crate::ZeroCopy`] for a record type.
//!
//! The text holds, for each field, a demand that its type be plain old data, and a demand that
//! the type as a whole be as large as its fields together, so that a type with padding does not
//! compile. Each field is written and read at its place in memory, so that the bytes are those of
//! the value in memory on a machine that stores the lowest byte first.
//!
//! A declaration is taken apart by `syn`. What is made of its parts is stated here in full, and
//! what the calls in the text do is stated in [`crate::derived`].

use vstd::prelude::*;
use vstd::string::*;
use quote::ToTokens;
use syn::Data::{Enum, Struct, Union};
use syn::DeriveInput;
use syn::Fields::Unit;
use crate::derived;
use crate::derived::Step;
use crate::zerocopy::{ItemKind, LayoutError};

verus! {

/// A field as text: its name, where it has one, and its type.
pub type FieldText = (Option<Seq<char>>, Seq<char>);

/// Generics as text: as they stand behind `impl`, as they stand behind the name of the type,
/// and the `where` clause.
pub type GenericsText = (Seq<char>, Seq<char>, Seq<char>);

/// What a type declaration says: what kind it is, the name, and the fields of a struct. Of an
/// enum or a union there are no fields here.
pub struct Declared {
    pub kind: ItemKind,
    pub name: Seq<char>,
    pub fields: Seq<FieldText>,
}

/// A field of a record type. The fields of a tuple struct have no names.
pub struct RecordField {
    pub name: Option<String>,
    pub ty: String,
}

impl View for RecordField {
    type V = FieldText;

    open spec fn view(&self) -> FieldText {
        (
            match self.name {
                Some(name) => Some(name@),
                None => None,
            },
            self.ty@,
        )
    }
}

/// A type declaration taken apart.
pub struct Declaration {
    pub kind: ItemKind,
    pub name: String,
    pub fields: Vec<RecordField>,
}

/// Fields as text.
pub open spec fn fields_text(fields: Seq<RecordField>) -> Seq<FieldText> {
    Seq::new(fields.len(), |i: int| fields[i]@)
}

impl View for Declaration {
    type V = Declared;

    open spec fn view(&self) -> Declared {
        Declared { kind: self.kind, name: self.name@, fields: fields_text(self.fields@) }
    }
}

/// The generics of a type declaration.
pub struct RecordGenerics {
    pub impl_generics: String,
    pub ty_generics: String,
    pub where_clause: String,
}

impl View for RecordGenerics {
    type V = GenericsText;

    open spec fn view(&self) -> GenericsText {
        (self.impl_generics@, self.ty_generics@, self.where_clause@)
    }
}

/// A digit.
pub open spec fn digit_text(d: u8) -> Seq<char> {
    match d {
        0 => "0"@,
        1 => "1"@,
        2 => "2"@,
        3 => "3"@,
        4 => "4"@,
        5 => "5"@,
        6 => "6"@,
        7 => "7"@,
        8 => "8"@,
        _ => "9"@,
    }
}

/// A number in decimal.
pub open spec fn decimal(n: nat) -> Seq<char>
    decreases n,
{
    if n < 10 {
        digit_text(n as u8)
    } else {
        decimal(n / 10) + digit_text((n % 10) as u8)
    }
}

/// How field `i` is reached: by its name, or else by its number.
pub open spec fn access_text(fields: Seq<FieldText>, i: int) -> Seq<char> {
    match fields[i].0 {
        Some(name) => name,
        None => decimal(i as nat),
    }
}

/// The type with its generics.
pub open spec fn type_text(item: Declared, g: GenericsText) -> Seq<char> {
    item.name + " "@ + g.1
}

/// The size of a type, as an expression.
pub open spec fn size_text(ty: Seq<char>) -> Seq<char> {
    "::core::mem::size_of::<"@ + ty + ">()"@
}

/// The sizes of the first `n` fields together, as an expression.
pub open spec fn sum_text(fields: Seq<FieldText>, n: int) -> Seq<char>
    decreases n,
{
    if n <= 0 {
        "0"@
    } else {
        sum_text(fields, n - 1) + " + "@ + size_text(fields[n - 1].1)
    }
}

/// The demands that the first `n` fields be plain old data.
pub open spec fn pod_text(fields: Seq<FieldText>, n: int) -> Seq<char>
    decreases n,
{
    if n <= 0 {
        Seq::empty()
    } else {
        pod_text(fields, n - 1) + "const _: fn() = || { fn _assert_pod<T: ::zerokv::Pod>() {} _assert_pod::<"@
            + fields[n - 1].1 + ">(); };\n"@
    }
}

/// The demand that there be no padding.
pub open spec fn padding_text(item: Declared, g: GenericsText) -> Seq<char> {
    "const _: () = { assert!("@ + size_text(type_text(item, g)) + " == ("@ + sum_text(
        item.fields,
        item.fields.len() as int,
    )
        + "), \"ZeroCopy: type has padding bytes; add #[repr(C, packed)] or reorder fields so the layout is padding-free, otherwise zero-copy reads are UB\"); };\n"@
}

/// The place of field `i` in memory, as an expression.
pub open spec fn place_text(fields: Seq<FieldText>, i: int) -> Seq<char> {
    "::core::mem::offset_of!(Self, "@ + access_text(fields, i) + ")"@
}

/// The write of field `i`.
pub open spec fn put_text(fields: Seq<FieldText>, i: int) -> Seq<char> {
    "::zerokv::zerocopy::put_field(&self."@ + access_text(fields, i) + ", dst, "@ + place_text(fields, i) + "); "@
}

/// The read of field `i`.
pub open spec fn take_text(fields: Seq<FieldText>, i: int) -> Seq<char> {
    access_text(fields, i) + ": ::zerokv::zerocopy::take_field::<"@ + fields[i].1 + ">(src, "@ + place_text(fields, i)
        + "), "@
}

/// The writes of the first `n` fields. What they do is [`crate::derived::encoded`].
pub open spec fn encode_text(fields: Seq<FieldText>, n: int) -> Seq<char>
    decreases n,
{
    if n <= 0 {
        Seq::empty()
    } else {
        encode_text(fields, n - 1) + put_text(fields, n - 1)
    }
}

/// The reads of the first `n` fields. What they give is [`crate::derived::decoded`].
pub open spec fn decode_text(fields: Seq<FieldText>, n: int) -> Seq<char>
    decreases n,
{
    if n <= 0 {
        Seq::empty()
    } else {
        decode_text(fields, n - 1) + take_text(fields, n - 1)
    }
}

/// The uses of the first `n` fields.
pub open spec fn use_text(fields: Seq<FieldText>, n: int) -> Seq<char>
    decreases n,
{
    if n <= 0 {
        Seq::empty()
    } else {
        use_text(fields, n - 1) + "let _ = &_v."@ + access_text(fields, n - 1) + "; "@
    }
}

/// The implementation as a whole.
pub open spec fn record_text(item: Declared, g: GenericsText) -> Seq<char> {
    let n = item.fields.len() as int;
    let ty = type_text(item, g);
    pod_text(item.fields, n) + padding_text(item, g) + "impl "@ + g.0 + " ::zerokv::ZeroCopy for "@ + ty + " "@ + g.2
        + " { const SERIALIZED_SIZE: usize = "@ + size_text(ty)
        + "; fn align_of() -> usize { ::core::mem::align_of::<Self>() } fn encode(&self, dst: &mut [u8]) { "@
        + "assert!(dst.len() >= Self::SERIALIZED_SIZE, \"encode: dst too small\"); "@ + encode_text(item.fields, n)
        + "} fn decode(src: &[u8]) -> Self { "@
        + "assert!(src.len() >= Self::SERIALIZED_SIZE, \"decode: src too small\"); "@ + "Self { "@
        + decode_text(item.fields, n) + "} } }\n"@ + "const _: fn(&"@ + ty + ") = |_v: &"@ + ty + "| { "@ + use_text(
        item.fields,
        n,
    ) + "};\n"@
}

/// A statement as text.
pub open spec fn step_text(fields: Seq<FieldText>, s: Step) -> Seq<char> {
    match s {
        Step::CheckDst => "assert!(dst.len() >= Self::SERIALIZED_SIZE, \"encode: dst too small\"); "@,
        Step::Put(i) => "::zerokv::zerocopy::put_field(&self."@ + access_text(fields, i)
            + ", dst, ::core::mem::offset_of!(Self, "@ + access_text(fields, i) + ")); "@,
        Step::CheckSrc => "assert!(src.len() >= Self::SERIALIZED_SIZE, \"decode: src too small\"); "@,
        Step::Take(i) => access_text(fields, i) + ": ::zerokv::zerocopy::take_field::<"@ + fields[i].1
            + ">(src, ::core::mem::offset_of!(Self, "@ + access_text(fields, i) + ")), "@,
    }
}

/// Statements as text, one after the other.
pub open spec fn steps_text(fields: Seq<FieldText>, steps: Seq<Step>) -> Seq<char>
    decreases steps.len(),
{
    if steps.len() == 0 {
        Seq::empty()
    } else {
        steps_text(fields, steps.drop_last()) + step_text(fields, steps.last())
    }
}

proof fn lemma_steps_join(fields: Seq<FieldText>, a: Seq<Step>, b: Seq<Step>)
    ensures
        steps_text(fields, a + b) == steps_text(fields, a) + steps_text(fields, b),
    decreases b.len(),
{
    if b.len() == 0 {
        assert(a + b =~= a);
        assert(steps_text(fields, a) + steps_text(fields, b) =~= steps_text(fields, a));
    } else {
        lemma_steps_join(fields, a, b.drop_last());
        assert((a + b).drop_last() =~= a + b.drop_last());
        assert((a + b).last() == b.last());
        assert(steps_text(fields, a + b) =~= steps_text(fields, a) + steps_text(fields, b));
    }
}

proof fn lemma_puts_text(fields: Seq<FieldText>, n: nat)
    ensures
        steps_text(fields, Seq::new(n, |i: int| Step::Put(i))) == encode_text(fields, n as int),
    decreases n,
{
    let steps = Seq::new(n, |i: int| Step::Put(i));
    if n > 0 {
        lemma_puts_text(fields, (n - 1) as nat);
        assert(steps.drop_last() =~= Seq::new((n - 1) as nat, |i: int| Step::Put(i)));
        reveal_strlit(", dst, ");
        reveal_strlit("::core::mem::offset_of!(Self, ");
        reveal_strlit(", dst, ::core::mem::offset_of!(Self, ");
        reveal_strlit(")");
        reveal_strlit("); ");
        reveal_strlit(")); ");
        assert(", dst, ::core::mem::offset_of!(Self, "@ =~= ", dst, "@ + "::core::mem::offset_of!(Self, "@);
        assert(")); "@ =~= ")"@ + "); "@);
        assert(step_text(fields, Step::Put(n - 1)) =~= put_text(fields, n - 1));
    }
}

proof fn lemma_takes_text(fields: Seq<FieldText>, n: nat)
    ensures
        steps_text(fields, Seq::new(n, |i: int| Step::Take(i))) == decode_text(fields, n as int),
    decreases n,
{
    let steps = Seq::new(n, |i: int| Step::Take(i));
    if n > 0 {
        lemma_takes_text(fields, (n - 1) as nat);
        assert(steps.drop_last() =~= Seq::new((n - 1) as nat, |i: int| Step::Take(i)));
        reveal_strlit(">(src, ");
        reveal_strlit("::core::mem::offset_of!(Self, ");
        reveal_strlit(">(src, ::core::mem::offset_of!(Self, ");
        reveal_strlit(")");
        reveal_strlit("), ");
        reveal_strlit(")), ");
        assert(">(src, ::core::mem::offset_of!(Self, "@ =~= ">(src, "@ + "::core::mem::offset_of!(Self, "@);
        assert(")), "@ =~= ")"@ + "), "@);
        assert(step_text(fields, Step::Take(n - 1)) =~= take_text(fields, n - 1));
    }
}

/// The text of an implementation is its demands, the head of the implementation, and its two
/// methods, each of which is the statements of [`derived::encode_steps`] or
/// [`derived::decode_steps`] and nothing else. What these statements do to the caller's bytes is
/// stated by [`derived::generated_encode_encodes`] and [`derived::generated_decode_decodes`].
pub proof fn implementations_are_their_steps(item: Declared, g: GenericsText)
    ensures
        ({
            let n = item.fields.len();
            let ty = item.name + " "@ + g.1;
            let takes = derived::decode_steps(n).skip(1);
            &&& derived::decode_steps(n).first() == Step::CheckSrc
            &&& record_text(item, g) == pod_text(item.fields, n as int) + padding_text(item, g) + "impl "@ + g.0
                + " ::zerokv::ZeroCopy for "@ + ty + " "@ + g.2
                + " { const SERIALIZED_SIZE: usize = ::core::mem::size_of::<"@ + ty
                + ">(); fn align_of() -> usize { ::core::mem::align_of::<Self>() } fn encode(&self, dst: &mut [u8]) { "@
                + steps_text(item.fields, derived::encode_steps(n)) + "} fn decode(src: &[u8]) -> Self { "@ + step_text(
                item.fields,
                Step::CheckSrc,
            ) + "Self { "@ + steps_text(item.fields, takes) + "} } }\n"@ + "const _: fn(&"@ + ty + ") = |_v: &"@ + ty
                + "| { "@ + use_text(item.fields, n as int) + "};\n"@
        }),
{
    let n = item.fields.len();
    let puts = Seq::new(n, |i: int| Step::Put(i));
    let takes = Seq::new(n, |i: int| Step::Take(i));
    lemma_puts_text(item.fields, n);
    lemma_takes_text(item.fields, n);
    lemma_steps_join(item.fields, seq![Step::CheckDst], puts);
    assert(derived::decode_steps(n).skip(1) =~= takes);
    let check = seq![Step::CheckDst];
    assert(check.drop_last() =~= Seq::<Step>::empty());
    assert(check.last() == Step::CheckDst);
    assert(steps_text(item.fields, check.drop_last()) =~= Seq::<char>::empty());
    assert(steps_text(item.fields, check) =~= step_text(item.fields, Step::CheckDst));
    reveal_strlit(" { const SERIALIZED_SIZE: usize = ");
    reveal_strlit("::core::mem::size_of::<");
    reveal_strlit(" { const SERIALIZED_SIZE: usize = ::core::mem::size_of::<");
    reveal_strlit(">()");
    reveal_strlit("; fn align_of() -> usize { ::core::mem::align_of::<Self>() } fn encode(&self, dst: &mut [u8]) { ");
    reveal_strlit(">(); fn align_of() -> usize { ::core::mem::align_of::<Self>() } fn encode(&self, dst: &mut [u8]) { ");
    assert(" { const SERIALIZED_SIZE: usize = ::core::mem::size_of::<"@ =~= " { const SERIALIZED_SIZE: usize = "@
        + "::core::mem::size_of::<"@);
    assert(">(); fn align_of() -> usize { ::core::mem::align_of::<Self>() } fn encode(&self, dst: &mut [u8]) { "@ =~= ">()"@
        + "; fn align_of() -> usize { ::core::mem::align_of::<Self>() } fn encode(&self, dst: &mut [u8]) { "@);
    assert(record_text(item, g) =~= pod_text(item.fields, n as int) + padding_text(item, g) + "impl "@ + g.0
        + " ::zerokv::ZeroCopy for "@ + (item.name + " "@ + g.1) + " "@ + g.2
        + " { const SERIALIZED_SIZE: usize = ::core::mem::size_of::<"@ + (item.name + " "@ + g.1)
        + ">(); fn align_of() -> usize { ::core::mem::align_of::<Self>() } fn encode(&self, dst: &mut [u8]) { "@
        + steps_text(item.fields, derived::encode_steps(n)) + "} fn decode(src: &[u8]) -> Self { "@ + step_text(
        item.fields,
        Step::CheckSrc,
    ) + "Self { "@ + steps_text(item.fields, takes) + "} } }\n"@ + "const _: fn(&"@ + (item.name + " "@ + g.1)
        + ") = |_v: &"@ + (item.name + " "@ + g.1) + "| { "@ + use_text(item.fields, n as int) + "};\n"@);
}

/// A statement is printed as a check of the caller's bytes, or as a call that writes to them or
/// reads from them, at the place of its field.
pub proof fn steps_are_printed_as_calls(fields: Seq<FieldText>, i: int)
    requires
        0 <= i < fields.len(),
    ensures
        step_text(fields, Step::CheckDst) == "assert!(dst.len() >= Self::SERIALIZED_SIZE, \"encode: dst too small\"); "@,
        step_text(fields, Step::CheckSrc) == "assert!(src.len() >= Self::SERIALIZED_SIZE, \"decode: src too small\"); "@,
        ({
            let name = match fields[i].0 {
                Some(name) => name,
                None => decimal(i as nat),
            };
            &&& step_text(fields, Step::Put(i)) == "::zerokv::zerocopy::put_field(&self."@ + name
                + ", dst, ::core::mem::offset_of!(Self, "@ + name + ")); "@
            &&& step_text(fields, Step::Take(i)) == name + ": ::zerokv::zerocopy::take_field::<"@ + fields[i].1
                + ">(src, ::core::mem::offset_of!(Self, "@ + name + ")), "@
        }),
{
}

/// An implementation demands of the compiler that every field be plain old data, and that the type
/// be as large as all of its fields together.
pub proof fn demands_cover_every_field(item: Declared, g: GenericsText, n: int)
    requires
        0 <= n < item.fields.len(),
    ensures
        pod_text(item.fields, 0) == Seq::<char>::empty(),
        pod_text(item.fields, n + 1) == pod_text(item.fields, n)
            + "const _: fn() = || { fn _assert_pod<T: ::zerokv::Pod>() {} _assert_pod::<"@ + item.fields[n].1 + ">(); };\n"@,
        sum_text(item.fields, 0) == "0"@,
        sum_text(item.fields, n + 1) == sum_text(item.fields, n) + " + "@ + ("::core::mem::size_of::<"@ + item.fields[n].1
            + ">()"@),
        padding_text(item, g) == "const _: () = { assert!("@ + ("::core::mem::size_of::<"@ + (item.name + " "@ + g.1)
            + ">()"@) + " == ("@ + sum_text(item.fields, item.fields.len() as int)
            + "), \"ZeroCopy: type has padding bytes; add #[repr(C, packed)] or reorder fields so the layout is padding-free, otherwise zero-copy reads are UB\"); };\n"@,
        use_text(item.fields, 0) == Seq::<char>::empty(),
        use_text(item.fields, n + 1) == use_text(item.fields, n) + "let _ = &_v."@ + (match item.fields[n].0 {
            Some(name) => name,
            None => decimal(n as nat),
        }) + "; "@,
{
}

/// A number in decimal is its digits to the base ten, the highest first.
pub proof fn decimals_are_digits(n: nat)
    ensures
        decimal(n).len() > 0,
        decimal(n).last() as int == 48 + n % 10,
        n < 10 ==> decimal(n).len() == 1,
        n >= 10 ==> decimal(n).drop_last() == decimal(n / 10),
{
    reveal_strlit("0");
    reveal_strlit("1");
    reveal_strlit("2");
    reveal_strlit("3");
    reveal_strlit("4");
    reveal_strlit("5");
    reveal_strlit("6");
    reveal_strlit("7");
    reveal_strlit("8");
    reveal_strlit("9");
    let d = (n % 10) as u8;
    assert(digit_text(d).len() == 1 && digit_text(d)[0] as int == 48 + d);
    if n >= 10 {
        assert(decimal(n).drop_last() =~= decimal(n / 10));
    }
}

/// What is said of a declaration is what it holds, part by part.
pub proof fn declarations_are_their_parts(item: Declaration, g: RecordGenerics, i: int)
    requires
        0 <= i < item.fields@.len(),
    ensures
        item@.kind == item.kind,
        item@.name == item.name@,
        item@.fields.len() == item.fields@.len(),
        item@.fields[i].1 == item.fields@[i].ty@,
        item@.fields[i].0 is Some <==> item.fields@[i].name is Some,
        item.fields@[i].name is Some ==> item@.fields[i].0->0 == (item.fields@[i].name->0)@,
        g@ == (g.impl_generics@, g.ty_generics@, g.where_clause@),
{
}

/// What `syn` finds in the text of a type declaration, or `None` where it finds that the text
/// is none.
pub uninterp spec fn declared(text: Seq<char>) -> Option<(Declared, GenericsText)>;

/// The error of `syn`.
#[verifier::external_type_specification]
#[verifier::external_body]
pub struct ExSynError(syn::Error);

/// Calls `syn::parse_str` for a `syn::DeriveInput`, and gives its parts as text: the kind, the
/// name and the fields, and the generics as `split_for_impl` hands them out. The crate that lexes
/// and prints the tokens is built without the compiler's own lexer and printer, so the contract
/// claims that what comes back is a matter of the text alone. It does not say which texts are
/// declarations, nor how the tokens of a part are spaced.
#[verifier::external_body]
fn parse_declaration(text: &str) -> (r: Result<(Declaration, RecordGenerics), syn::Error>)
    ensures
        r is Ok <==> declared(text@) is Some,
        r is Ok ==> ((r->Ok_0).0@, (r->Ok_0).1@) == declared(text@)->0,
{
    let ast: DeriveInput = syn::parse_str(text)?;
    let (kind, fields) = match ast.data {
        Struct(s) => (ItemKind::Struct, s.fields),
        Enum(_) => (ItemKind::Enum, Unit),
        Union(_) => (ItemKind::Union, Unit),
    };
    let fields = fields.into_iter().map(
        |f| RecordField { name: f.ident.map(|x| x.to_string()), ty: f.ty.to_token_stream().to_string() }).collect();
    let (i, t, w) = ast.generics.split_for_impl();
    Ok((Declaration { kind, name: ast.ident.to_string(), fields }, RecordGenerics {
        impl_generics: i.to_token_stream().to_string(),
        ty_generics: t.to_token_stream().to_string(),
        where_clause: w.to_token_stream().to_string(),
    }))
}

/// Why there is no implementation.
pub enum DeriveError {
    /// The text is no type declaration.
    Syntax(syn::Error),
    /// Only a struct has a fixed layout.
    NotAStruct,
}

/// The implementation for the type that `input` declares.
pub fn derive_zero_copy(input: &str) -> (r: Result<String, DeriveError>)
    ensures
        match declared(input@) {
            None => r is Err && r->Err_0 is Syntax,
            Some((item, generics)) => if item.kind == ItemKind::Struct {
                r is Ok && r->Ok_0@ == record_text(item, generics)
            } else {
                r is Err && r->Err_0 is NotAStruct
            },
        },
{
    match parse_declaration(input) {
        Err(e) => Err(DeriveError::Syntax(e)),
        Ok((item, generics)) => match implement_record(&item, &generics) {
            Ok(text) => Ok(text),
            Err(_) => Err(DeriveError::NotAStruct),
        },
    }
}

fn push_digit(out: &mut String, d: u8)
    requires
        d < 10,
    ensures
        final(out)@ == old(out)@ + digit_text(d),
{
    let text = match d {
        0 => "0",
        1 => "1",
        2 => "2",
        3 => "3",
        4 => "4",
        5 => "5",
        6 => "6",
        7 => "7",
        8 => "8",
        _ => "9",
    };
    out.append(text);
}

fn push_number(out: &mut String, n: usize)
    ensures
        final(out)@ == old(out)@ + decimal(n as nat),
    decreases n,
{
    if n < 10 {
        push_digit(out, n as u8);
    } else {
        push_number(out, n / 10);
        push_digit(out, (n % 10) as u8);
        assert(out@ =~= old(out)@ + decimal(n as nat));
    }
}

fn push_access(out: &mut String, fields: &Vec<RecordField>, i: usize)
    requires
        i < fields@.len(),
    ensures
        final(out)@ == old(out)@ + access_text(fields_text(fields@), i as int),
{
    match &fields[i].name {
        Some(name) => {
            out.append(name.as_str());
        },
        None => {
            push_number(out, i);
        },
    }
}

fn push_place(out: &mut String, fields: &Vec<RecordField>, i: usize)
    requires
        i < fields@.len(),
    ensures
        final(out)@ == old(out)@ + place_text(fields_text(fields@), i as int),
{
    out.append("::core::mem::offset_of!(Self, ");
    push_access(out, fields, i);
    out.append(")");
    assert(out@ =~= old(out)@ + place_text(fields_text(fields@), i as int));
}

fn push_type(out: &mut String, item: &Declaration, g: &RecordGenerics)
    ensures
        final(out)@ == old(out)@ + type_text(item@, g@),
{
    out.append(item.name.as_str());
    out.append(" ");
    out.append(g.ty_generics.as_str());
    assert(out@ =~= old(out)@ + type_text(item@, g@));
}

fn push_size_of_type(out: &mut String, item: &Declaration, g: &RecordGenerics)
    ensures
        final(out)@ == old(out)@ + size_text(type_text(item@, g@)),
{
    out.append("::core::mem::size_of::<");
    push_type(out, item, g);
    out.append(">()");
    assert(out@ =~= old(out)@ + size_text(type_text(item@, g@)));
}

fn push_sum(out: &mut String, fields: &Vec<RecordField>, n: usize)
    requires
        n <= fields@.len(),
    ensures
        final(out)@ == old(out)@ + sum_text(fields_text(fields@), n as int),
{
    out.append("0");
    let mut i: usize = 0;
    while i < n
        invariant
            i <= n <= fields@.len(),
            out@ == old(out)@ + sum_text(fields_text(fields@), i as int),
        decreases n - i,
    {
        let ghost before = out@;
        out.append(" + ");
        out.append("::core::mem::size_of::<");
        out.append(fields[i].ty.as_str());
        out.append(">()");
        assert(out@ =~= old(out)@ + sum_text(fields_text(fields@), i + 1));
        i += 1;
    }
}

fn push_pods(out: &mut String, fields: &Vec<RecordField>)
    ensures
        final(out)@ == old(out)@ + pod_text(fields_text(fields@), fields@.len() as int),
{
    let mut i: usize = 0;
    assert(out@ =~= old(out)@ + pod_text(fields_text(fields@), 0));
    while i < fields.len()
        invariant
            i <= fields@.len(),
            out@ == old(out)@ + pod_text(fields_text(fields@), i as int),
        decreases fields@.len() - i,
    {
        out.append("const _: fn() = || { fn _assert_pod<T: ::zerokv::Pod>() {} _assert_pod::<");
        out.append(fields[i].ty.as_str());
        out.append(">(); };\n");
        assert(out@ =~= old(out)@ + pod_text(fields_text(fields@), i + 1));
        i += 1;
    }
}

fn push_encode(out: &mut String, fields: &Vec<RecordField>)
    ensures
        final(out)@ == old(out)@ + encode_text(fields_text(fields@), fields@.len() as int),
{
    let mut i: usize = 0;
    assert(out@ =~= old(out)@ + encode_text(fields_text(fields@), 0));
    while i < fields.len()
        invariant
            i <= fields@.len(),
            out@ == old(out)@ + encode_text(fields_text(fields@), i as int),
        decreases fields@.len() - i,
    {
        out.append("::zerokv::zerocopy::put_field(&self.");
        push_access(out, fields, i);
        out.append(", dst, ");
        push_place(out, fields, i);
        out.append("); ");
        assert(out@ =~= old(out)@ + encode_text(fields_text(fields@), i + 1));
        i += 1;
    }
}

fn push_decode(out: &mut String, fields: &Vec<RecordField>)
    ensures
        final(out)@ == old(out)@ + decode_text(fields_text(fields@), fields@.len() as int),
{
    let mut i: usize = 0;
    assert(out@ =~= old(out)@ + decode_text(fields_text(fields@), 0));
    while i < fields.len()
        invariant
            i <= fields@.len(),
            out@ == old(out)@ + decode_text(fields_text(fields@), i as int),
        decreases fields@.len() - i,
    {
        push_access(out, fields, i);
        out.append(": ::zerokv::zerocopy::take_field::<");
        out.append(fields[i].ty.as_str());
        out.append(">(src, ");
        push_place(out, fields, i);
        out.append("), ");
        assert(out@ =~= old(out)@ + decode_text(fields_text(fields@), i + 1));
        i += 1;
    }
}

fn push_uses(out: &mut String, fields: &Vec<RecordField>)
    ensures
        final(out)@ == old(out)@ + use_text(fields_text(fields@), fields@.len() as int),
{
    let mut i: usize = 0;
    assert(out@ =~= old(out)@ + use_text(fields_text(fields@), 0));
    while i < fields.len()
        invariant
            i <= fields@.len(),
            out@ == old(out)@ + use_text(fields_text(fields@), i as int),
        decreases fields@.len() - i,
    {
        out.append("let _ = &_v.");
        push_access(out, fields, i);
        out.append("; ");
        assert(out@ =~= old(out)@ + use_text(fields_text(fields@), i + 1));
        i += 1;
    }
}

/// Writes the implementation for the type of a declaration. Only a struct has one.
pub fn implement_record(item: &Declaration, g: &RecordGenerics) -> (r: Result<String, LayoutError>)
    ensures
        item.kind != ItemKind::Struct <==> r == Err::<String, LayoutError>(LayoutError::NotAStruct),
        item.kind == ItemKind::Struct ==> r is Ok && r->Ok_0@ == record_text(item@, g@),
{
    if item.kind != ItemKind::Struct {
        return Err(LayoutError::NotAStruct);
    }
    let mut out = String::new();
    push_pods(&mut out, &item.fields);
    out.append("const _: () = { assert!(");
    push_size_of_type(&mut out, item, g);
    out.append(" == (");
    push_sum(&mut out, &item.fields, item.fields.len());
    out.append(
        "), \"ZeroCopy: type has padding bytes; add #[repr(C, packed)] or reorder fields so the layout is padding-free, otherwise zero-copy reads are UB\"); };\n",
    );
    assert(out@ =~= pod_text(item@.fields, item@.fields.len() as int) + padding_text(item@, g@));
    out.append("impl ");
    out.append(g.impl_generics.as_str());
    out.append(" ::zerokv::ZeroCopy for ");
    push_type(&mut out, item, g);
    out.append(" ");
    out.append(g.where_clause.as_str());
    out.append(" { const SERIALIZED_SIZE: usize = ");
    push_size_of_type(&mut out, item, g);
    out.append("; fn align_of() -> usize { ::core::mem::align_of::<Self>() } fn encode(&self, dst: &mut [u8]) { ");
    out.append("assert!(dst.len() >= Self::SERIALIZED_SIZE, \"encode: dst too small\"); ");
    push_encode(&mut out, &item.fields);
    out.append("} fn decode(src: &[u8]) -> Self { ");
    out.append("assert!(src.len() >= Self::SERIALIZED_SIZE, \"decode: src too small\"); ");
    out.append("Self { ");
    push_decode(&mut out, &item.fields);
    out.append("} } }\n");
    out.append("const _: fn(&");
    push_type(&mut out, item, g);
    out.append(") = |_v: &");
    push_type(&mut out, item, g);
    out.append("| { ");
    push_uses(&mut out, &item.fields);
    out.append("};\n");
    assert(out@ =~= record_text(item@, g@));
    Ok(out)
}

} // verus!
