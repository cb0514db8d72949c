//! XML serializer: appends the wire form of operation values to a growable
//! byte buffer.
//!
//! Every write is specified exactly: each method appends precisely the byte
//! sequence given by the spec-level combinators (`open_tag`, `element`, ...),
//! so a type's whole encoding is pinned down by its `content_spec`/`full_spec`.

use vstd::prelude::*;
use crate::text::{LT, GT, QUOT, EQ_SIGN, SLASH, SPACE, LOW_L, LOW_M, LOW_N, LOW_S, LOW_X,
    escape_seq, escape_into};
use crate::num::{int_text, bool_text, push_i64_dec, push_bool};

verus! {

/// `<name>`
pub open spec fn open_tag(name: Seq<u8>) -> Seq<u8> {
    seq![LT] + name + seq![GT]
}

/// `</name>`
pub open spec fn close_tag(name: Seq<u8>) -> Seq<u8> {
    seq![LT, SLASH] + name + seq![GT]
}

/// `<name>content</name>`
pub open spec fn element(name: Seq<u8>, content: Seq<u8>) -> Seq<u8> {
    open_tag(name) + content + close_tag(name)
}

/// `<name xmlns="ns">` — the form root elements of whole-body types take.
pub open spec fn open_tag_ns(name: Seq<u8>, ns: Seq<u8>) -> Seq<u8> {
    seq![LT] + name + seq![SPACE, LOW_X, LOW_M, LOW_L, LOW_N, LOW_S, EQ_SIGN, QUOT]
        + escape_seq(ns) + seq![QUOT, GT]
}

/// `<name xmlns="ns">content</name>`
pub open spec fn element_ns(name: Seq<u8>, ns: Seq<u8>, content: Seq<u8>) -> Seq<u8> {
    open_tag_ns(name, ns) + content + close_tag(name)
}

/// Output buffer for XML encoding. Its view is the bytes written so far.
pub struct Serializer {
    buf: Vec<u8>,
}

impl View for Serializer {
    type V = Seq<u8>;

    closed spec fn view(&self) -> Seq<u8> {
        self.buf@
    }
}

impl Serializer {
    pub fn new() -> (r: Self)
        ensures
            r@ == Seq::<u8>::empty(),
    {
        Serializer { buf: Vec::new() }
    }

    /// Continue appending to a caller-supplied buffer.
    pub fn with_buffer(buf: Vec<u8>) -> (r: Self)
        ensures
            r@ == buf@,
    {
        Serializer { buf }
    }

    /// The encoded bytes.
    pub fn into_bytes(self) -> (r: Vec<u8>)
        ensures
            r@ == self@,
    {
        self.buf
    }

    /// Append bytes verbatim (tag punctuation and names; never raw text).
    fn raw(&mut self, bytes: &[u8])
        ensures
            final(self)@ == old(self)@ + bytes@,
    {
        let ghost orig = self.buf@;
        let mut i: usize = 0;
        while i < bytes.len()
            invariant
                i <= bytes@.len(),
                self.buf@ == orig + bytes@.take(i as int),
            decreases bytes@.len() - i,
        {
            self.buf.push(bytes[i]);
            proof {
                assert(self.buf@ =~= orig + bytes@.take(i as int + 1));
            }
            i = i + 1;
        }
        proof {
            assert(bytes@.take(bytes@.len() as int) =~= bytes@);
        }
    }

    /// Append `<name>`.
    pub fn begin(&mut self, name: &[u8])
        ensures
            final(self)@ == old(self)@ + open_tag(name@),
    {
        self.buf.push(LT);
        self.raw(name);
        self.buf.push(GT);
        proof {
            assert(self.buf@ =~= old(self)@ + open_tag(name@));
        }
    }

    /// Append `<name xmlns="ns">`.
    pub fn begin_ns(&mut self, name: &[u8], ns: &[u8])
        ensures
            final(self)@ == old(self)@ + open_tag_ns(name@, ns@),
    {
        self.buf.push(LT);
        self.raw(name);
        self.buf.push(SPACE);
        self.buf.push(LOW_X);
        self.buf.push(LOW_M);
        self.buf.push(LOW_L);
        self.buf.push(LOW_N);
        self.buf.push(LOW_S);
        self.buf.push(EQ_SIGN);
        self.buf.push(QUOT);
        escape_into(&mut self.buf, ns);
        self.buf.push(QUOT);
        self.buf.push(GT);
        proof {
            assert(self.buf@ =~= old(self)@ + open_tag_ns(name@, ns@));
        }
    }

    /// Append `</name>`.
    pub fn end(&mut self, name: &[u8])
        ensures
            final(self)@ == old(self)@ + close_tag(name@),
    {
        self.buf.push(LT);
        self.buf.push(SLASH);
        self.raw(name);
        self.buf.push(GT);
        proof {
            assert(self.buf@ =~= old(self)@ + close_tag(name@));
        }
    }

    /// Append escaped text.
    pub fn text(&mut self, s: &[u8])
        ensures
            final(self)@ == old(self)@ + escape_seq(s@),
    {
        escape_into(&mut self.buf, s);
    }

    /// Append `<name>escaped text</name>`.
    pub fn text_element(&mut self, name: &[u8], value: &[u8])
        ensures
            final(self)@ == old(self)@ + element(name@, escape_seq(value@)),
    {
        self.begin(name);
        self.text(value);
        self.end(name);
        proof {
            assert(self.buf@ =~= old(self)@ + element(name@, escape_seq(value@)));
        }
    }

    /// Append `<name>` + decimal text + `</name>`.
    pub fn i64_element(&mut self, name: &[u8], v: i64)
        ensures
            final(self)@ == old(self)@ + element(name@, int_text(v as int)),
    {
        self.begin(name);
        push_i64_dec(&mut self.buf, v);
        self.end(name);
        proof {
            assert(self.buf@ =~= old(self)@ + element(name@, int_text(v as int)));
        }
    }

    /// Append `<name>` + decimal text + `</name>`.
    pub fn i32_element(&mut self, name: &[u8], v: i32)
        ensures
            final(self)@ == old(self)@ + element(name@, int_text(v as int)),
    {
        self.i64_element(name, v as i64);
    }

    /// Append `<name>true</name>` or `<name>false</name>`.
    pub fn bool_element(&mut self, name: &[u8], v: bool)
        ensures
            final(self)@ == old(self)@ + element(name@, bool_text(v)),
    {
        self.begin(name);
        push_bool(&mut self.buf, v);
        self.end(name);
        proof {
            assert(self.buf@ =~= old(self)@ + element(name@, bool_text(v)));
        }
    }
}

/// Per-type mapping contract, encode side: the *content* encoding emits only
/// the value's member elements, with no enclosing tag.
pub trait SerializeContent {
    /// The exact bytes of the value's content encoding.
    spec fn content_spec(&self) -> Seq<u8>;

    fn serialize_content(&self, s: &mut Serializer)
        ensures
            final(s)@ == old(s)@ + self.content_spec(),
    ;
}

/// Encode side for whole request/response bodies: the *full* encoding wraps
/// the content in the type's own root element (with the S3 namespace
/// attribute for the root types documented to carry one).
pub trait Serialize: SerializeContent {
    /// The exact bytes of the value's full encoding.
    spec fn full_spec(&self) -> Seq<u8>;

    fn serialize(&self, s: &mut Serializer)
        ensures
            final(s)@ == old(s)@ + self.full_spec(),
    ;
}

/// A flattened list member: each item full-encoded under `tag`, directly as
/// siblings, in order; an empty list emits nothing.
pub open spec fn flat_list_spec<T: SerializeContent>(tag: Seq<u8>, items: Seq<T>) -> Seq<u8>
    decreases items.len(),
{
    if items.len() == 0 {
        Seq::empty()
    } else {
        element(tag, items[0].content_spec()) + flat_list_spec(tag, items.skip(1))
    }
}

pub proof fn lemma_flat_list_push<T: SerializeContent>(tag: Seq<u8>, items: Seq<T>, x: T)
    ensures
        flat_list_spec(tag, items.push(x)) == flat_list_spec(tag, items) + element(
            tag,
            x.content_spec(),
        ),
    decreases items.len(),
{
    if items.len() == 0 {
        assert(items.push(x)[0] == x);
        assert(items.push(x).skip(1) =~= Seq::<T>::empty());
        assert(flat_list_spec(tag, Seq::<T>::empty()) == Seq::<u8>::empty());
        assert(flat_list_spec(tag, items.push(x)) =~= flat_list_spec(tag, items) + element(
            tag,
            x.content_spec(),
        ));
    } else {
        assert(items.push(x)[0] == items[0]);
        assert(items.push(x).skip(1) =~= items.skip(1).push(x));
        lemma_flat_list_push(tag, items.skip(1), x);
        assert(flat_list_spec(tag, items.push(x)) =~= flat_list_spec(tag, items) + element(
            tag,
            x.content_spec(),
        ));
    }
}

/// Serialize a flattened list member: one full-encoded item per element of
/// `items`, under `tag`, in order.
pub fn serialize_flat_list<T: SerializeContent>(s: &mut Serializer, tag: &[u8], items: &Vec<T>)
    ensures
        final(s)@ == old(s)@ + flat_list_spec(tag@, items@),
{
    let ghost orig = s@;
    let mut i: usize = 0;
    proof {
        assert(items@.take(0) =~= Seq::<T>::empty());
    }
    while i < items.len()
        invariant
            i <= items@.len(),
            s@ == orig + flat_list_spec(tag@, items@.take(i as int)),
        decreases items@.len() - i,
    {
        s.begin(tag);
        let it: &T = &items[i];
        it.serialize_content(s);
        s.end(tag);
        proof {
            assert(items@.take(i as int + 1) =~= items@.take(i as int).push(items@[i as int]));
            lemma_flat_list_push(tag@, items@.take(i as int), items@[i as int]);
            assert(s@ =~= orig + flat_list_spec(tag@, items@.take(i as int + 1)));
        }
        i = i + 1;
    }
    proof {
        assert(items@.take(items@.len() as int) =~= items@);
    }
}

} // verus!
