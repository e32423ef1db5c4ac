//! The string codec: an unsigned length prefix, then the UTF-8 bytes verbatim.

use vstd::prelude::*;
use vstd::utf8::*;

use crate::integer::{
    le_bytes, le_value, lemma_le_bytes_props, lemma_pow256_monotone, lemma_spec_dec_content,
    lemma_usize_width, lemma_vli_unsigned_canon, spec_ser_int, spec_vli_unsigned, Integer,
    IntegerDeserialiser, IntegerReadError, SignedState,
};
use crate::ser_glue::{Deserable, DeserMachine, DesiredInput, FsmResult, Serable};

verus! {

/// The wire form of a string: the byte length as an unsigned integer, then
/// the UTF-8 bytes themselves.
pub open spec fn spec_ser_string(sv: Seq<char>) -> Seq<u8> {
    spec_vli_unsigned(encode_utf8(sv).len()) + encode_utf8(sv)
}

/// A string worth encoding fits the platform: its UTF-8 byte length is a
/// `usize`. Every string held in memory satisfies this.
pub open spec fn string_len_fits(sv: Seq<char>) -> bool {
    encode_utf8(sv).len() <= usize::MAX
}

/// The length prefix of a string that fits is a well-formed short encoding.
pub proof fn lemma_string_len_prefix(sv: Seq<char>)
    requires
        string_len_fits(sv),
    ensures
        le_bytes(encode_utf8(sv).len()).len() <= vstd::layout::size_of::<usize>(),
        le_bytes(encode_utf8(sv).len()).len() <= 16,
        spec_ser_int(le_bytes(encode_utf8(sv).len())) == spec_vli_unsigned(encode_utf8(sv).len()),
{
    let n = encode_utf8(sv).len();
    lemma_usize_width();
    let w = vstd::layout::size_of::<usize>() as nat;
    lemma_pow256_monotone(w, 16);
    lemma_le_bytes_props(n);
    if le_bytes(n).len() > w {
        lemma_pow256_monotone(w, (le_bytes(n).len() - 1) as nat);
    }
    lemma_vli_unsigned_canon(n);
}

/// Relies on `String::from_utf8`: it succeeds exactly on valid UTF-8 input
/// and then decodes those bytes to their character sequence.
#[verifier::external_body]
fn string_from_utf8(bytes: Vec<u8>) -> (r: Result<String, std::string::FromUtf8Error>)
    ensures
        match r {
            Ok(s) => valid_utf8(bytes@) && s@ == decode_utf8(bytes@),
            Err(_) => !valid_utf8(bytes@),
        },
{
    String::from_utf8(bytes)
}

/// The standard library's UTF-8 validation error, carried through unchanged.
#[verifier::external_type_specification]
#[verifier::external_body]
pub struct ExFromUtf8Error(std::string::FromUtf8Error);

/// Everything that can go wrong reading a string back.
#[derive(Debug)]
pub enum StringReadError {
    /// The length prefix failed to decode or did not fit a `usize`.
    Integer(IntegerReadError),
    /// The collected content bytes were not valid UTF-8.
    String(std::string::FromUtf8Error),
}

impl Serable for &str {
    type ExtraOutput = ();

    open spec fn spec_ser(&self) -> Seq<u8> {
        spec_ser_string(self@)
    }

    open spec fn spec_extra_ok(&self, extra: ()) -> bool {
        true
    }

    /// Appends the length prefix and then the raw UTF-8 bytes.
    fn ser_into(&self, into: &mut Vec<u8>) -> (r: ()) {
        let bytes: &[u8] = self.as_bytes();
        Integer::from_usize(bytes.len()).ser_into(into);
        into.extend_from_slice(bytes);
        proof {
            lemma_string_len_prefix(self@);
            assert(self.spec_ser() == spec_ser_string(self@));
            assert(self.spec_extra_ok(()));
            assert(final(into)@ =~= old(into)@ + spec_ser_string(self@));
        }
    }
}

impl Serable for String {
    type ExtraOutput = ();

    open spec fn spec_ser(&self) -> Seq<u8> {
        spec_ser_string(self@)
    }

    open spec fn spec_extra_ok(&self, extra: ()) -> bool {
        true
    }

    /// Appends the length prefix and then the raw UTF-8 bytes.
    fn ser_into(&self, into: &mut Vec<u8>) -> (r: ()) {
        let s: &str = self.as_str();
        let bytes: &[u8] = s.as_bytes();
        Integer::from_usize(bytes.len()).ser_into(into);
        into.extend_from_slice(bytes);
        proof {
            lemma_string_len_prefix(self@);
            assert(self.spec_ser() == spec_ser_string(self@));
            assert(self.spec_extra_ok(()));
            assert(final(into)@ =~= old(into)@ + spec_ser_string(self@));
        }
    }
}

/// The pull-driven decoder for one string: first the length, then that many
/// content bytes, then UTF-8 validation.
#[derive(Debug)]
pub enum StringDeserialiser {
    /// The length prefix is still being decoded.
    DeseringLen(IntegerDeserialiser),
    /// The length is known; `content_so_far` collects the announced bytes.
    ReadingContent { needed: usize, content_so_far: Vec<u8> },
}

impl Deserable for String {
    type Deserer = StringDeserialiser;
}

impl StringDeserialiser {
    /// Structural soundness of a reachable machine state.
    pub open spec fn inv(&self) -> bool {
        match self {
            StringDeserialiser::DeseringLen(im) => im.inv() && !(*im is Start),
            StringDeserialiser::ReadingContent { needed, content_so_far } => content_so_far@.len()
                <= *needed,
        }
    }

    /// How many pure processing steps remain before bytes are needed again.
    pub open spec fn rank(&self) -> nat {
        match self {
            StringDeserialiser::DeseringLen(im) => im.rank() + 2,
            StringDeserialiser::ReadingContent { .. } => 1,
        }
    }

    /// What the machine asks of the driver in each state.
    pub open spec fn spec_wants(&self) -> DesiredInput {
        match self {
            StringDeserialiser::DeseringLen(im) => im.spec_wants(),
            StringDeserialiser::ReadingContent { needed, content_so_far } => if content_so_far@.len()
                < *needed {
                DesiredInput::Bytes((*needed - content_so_far@.len()) as usize)
            } else {
                DesiredInput::ProcessMe
            },
        }
    }

    /// The machine has consumed the first `p` bytes of the wire form of the
    /// character sequence `sv`.
    pub open spec fn following(&self, sv: Seq<char>, p: int) -> bool {
        let b = encode_utf8(sv);
        let lenc = spec_vli_unsigned(b.len());
        &&& string_len_fits(sv)
        &&& match self {
            StringDeserialiser::DeseringLen(im) => {
                &&& im.following(SignedState::Unsigned, le_bytes(b.len()), p)
                &&& 0 <= p <= lenc.len()
            },
            StringDeserialiser::ReadingContent { needed, content_so_far } => {
                &&& *needed == b.len()
                &&& lenc.len() <= p <= lenc.len() + b.len()
                &&& content_so_far@ == b.subrange(0, p - lenc.len())
                &&& p == lenc.len() + content_so_far@.len()
            },
        }
    }

    /// While following: the extra is never requested, bytes are requested
    /// only strictly inside the wire form and never more than remain, and the
    /// complete wire form asks to be processed.
    pub proof fn lemma_following_wants(&self, sv: Seq<char>, p: int)
        requires
            self.following(sv, p),
        ensures
            !(self.spec_wants() is Extra),
            self.spec_wants() is Byte ==> self.byte_capacity() == 1,
            self.spec_wants() matches DesiredInput::Bytes(k) ==> k == self.byte_capacity(),
            self.byte_capacity() <= spec_ser_string(sv).len() - p,
            (self.spec_wants() is Byte || self.spec_wants() is Bytes) ==> self.byte_capacity() > 0
                && p < spec_ser_string(sv).len(),
            p == spec_ser_string(sv).len() ==> self.spec_wants() is ProcessMe,
            self.inv(),
            0 <= p <= spec_ser_string(sv).len(),
    {
        let b = encode_utf8(sv);
        lemma_string_len_prefix(sv);
        match self {
            StringDeserialiser::DeseringLen(im) => {
                im.lemma_following_wants(SignedState::Unsigned, le_bytes(b.len()), p);
            },
            StringDeserialiser::ReadingContent { .. } => {},
        }
    }
}

impl DeserMachine for StringDeserialiser {
    type ExtraInput = ();

    type Output = String;

    type Error = StringReadError;

    open spec fn byte_capacity(&self) -> nat {
        match self.spec_wants() {
            DesiredInput::Byte => 1,
            DesiredInput::Bytes(k) => k as nat,
            _ => 0,
        }
    }

    fn new() -> (r: Self)
        ensures
            r == StringDeserialiser::DeseringLen(
                IntegerDeserialiser::GotSignedState { state: SignedState::Unsigned },
            ),
    {
        StringDeserialiser::DeseringLen(
            IntegerDeserialiser::new_with_starting_input(SignedState::Unsigned),
        )
    }

    fn wants_read(&self) -> (r: DesiredInput)
        ensures
            r == self.spec_wants(),
    {
        match self {
            StringDeserialiser::DeseringLen(im) => im.wants_read(),
            StringDeserialiser::ReadingContent { needed, content_so_far } => {
                if content_so_far.len() < *needed {
                    DesiredInput::Bytes(*needed - content_so_far.len())
                } else {
                    DesiredInput::ProcessMe
                }
            },
        }
    }

    fn give_starting_input(&mut self, magic: ())
        ensures
            *final(self) == *old(self),
    {
    }

    fn finish_bytes_for_writing(&mut self, bytes: &[u8])
        ensures
            old(self).inv() ==> final(self).inv(),
            bytes@.len() == 0 ==> *final(self) == *old(self),
            forall|sv: Seq<char>, p: int|
                #[trigger] old(self).following(sv, p) && bytes@.len() > 0 && p + bytes@.len()
                    <= spec_ser_string(sv).len() && bytes@ == spec_ser_string(sv).subrange(
                    p,
                    p + bytes@.len(),
                ) ==> final(self).following(sv, p + bytes@.len()),
    {
        match self {
            StringDeserialiser::DeseringLen(im) => {
                im.finish_bytes_for_writing(bytes);
                proof {
                    assert forall|sv: Seq<char>, p: int|
                        #[trigger] old(self).following(sv, p) && bytes@.len() > 0 && p
                            + bytes@.len() <= spec_ser_string(sv).len() && bytes@
                            == spec_ser_string(sv).subrange(p, p + bytes@.len()) implies final(self).following(sv, p + bytes@.len()) by {
                        let b = encode_utf8(sv);
                        let n = b.len();
                        let lenc = spec_vli_unsigned(n);
                        lemma_string_len_prefix(sv);
                        let oim = old(self)->0;
                        oim.lemma_following_wants(SignedState::Unsigned, le_bytes(n), p);
                        assert(bytes@.len() <= lenc.len() - p);
                        assert(spec_ser_string(sv).subrange(p, p + bytes@.len()) =~= lenc.subrange(
                            p,
                            p + bytes@.len(),
                        ));
                    }
                }
            },
            StringDeserialiser::ReadingContent { needed, content_so_far } => {
                let ghost old_content = content_so_far@;
                if bytes.len() == 0 {
                    return ;
                }
                let mut i: usize = 0;
                while i < bytes.len()
                    invariant
                        i <= bytes@.len(),
                        content_so_far@ == old_content + bytes@.subrange(0, i as int),
                    decreases bytes@.len() - i,
                {
                    proof {
                        assert(old_content + bytes@.subrange(0, i + 1) =~= (old_content
                            + bytes@.subrange(0, i as int)) + seq![bytes@[i as int]]);
                    }
                    content_so_far.push(bytes[i]);
                    i += 1;
                }
                proof {
                    assert(bytes@.subrange(0, bytes@.len() as int) =~= bytes@);
                    assert forall|sv: Seq<char>, p: int|
                        #[trigger] old(self).following(sv, p) && bytes@.len() > 0 && p
                            + bytes@.len() <= spec_ser_string(sv).len() && bytes@
                            == spec_ser_string(sv).subrange(p, p + bytes@.len()) implies final(self).following(sv, p + bytes@.len()) by {
                        let b = encode_utf8(sv);
                        let lenc = spec_vli_unsigned(b.len());
                        lemma_string_len_prefix(sv);
                        assert(final(self)->content_so_far@ =~= b.subrange(
                            0,
                            p + bytes@.len() - lenc.len(),
                        ));
                    }
                }
            },
        }
    }

    fn process(self) -> (r: Result<FsmResult<Self, String>, StringReadError>)
        ensures
            self.inv() ==> (r matches Ok(FsmResult::Continue(m2)) ==> m2.inv() && (
            self.spec_wants() is ProcessMe ==> m2.rank() < self.rank())),
            r matches Err(e) ==> ((self is DeseringLen ==> e matches StringReadError::Integer(_))
                && (self is ReadingContent ==> e matches StringReadError::String(_))),
            self matches StringDeserialiser::ReadingContent { needed, content_so_far } ==> (
            content_so_far@.len() >= needed ==> match r {
                Ok(FsmResult::Done(s)) => valid_utf8(content_so_far@) && s@ == decode_utf8(
                    content_so_far@,
                ),
                Err(StringReadError::String(_)) => !valid_utf8(content_so_far@),
                _ => false,
            }),
            self matches StringDeserialiser::ReadingContent { needed, content_so_far } ==> (
            content_so_far@.len() < needed ==> (r matches Ok(FsmResult::Continue(m2)) && m2
                == self)),
            forall|sv: Seq<char>, p: int|
                #[trigger] self.following(sv, p) && self.spec_wants() is ProcessMe ==> match r {
                    Ok(FsmResult::Continue(m2)) => m2.following(sv, p) && m2.rank() < self.rank(),
                    Ok(FsmResult::Done(v)) => p == spec_ser_string(sv).len() && v@ == sv,
                    Err(_) => false,
                },
    {
        match self {
            StringDeserialiser::DeseringLen(im) => {
                let ghost old_im = im;
                match im.process() {
                    Err(e) => {
                        proof {
                            assert forall|sv: Seq<char>, p: int|
                                #[trigger] self.following(sv, p) && self.spec_wants()
                                    is ProcessMe implies false by {
                                lemma_string_len_prefix(sv);
                                assert(old_im.following(
                                    SignedState::Unsigned,
                                    le_bytes(encode_utf8(sv).len()),
                                    p,
                                ));
                            }
                        }
                        Err(StringReadError::Integer(e))
                    },
                    Ok(FsmResult::Continue(im2)) => {
                        let m2 = StringDeserialiser::DeseringLen(im2);
                        proof {
                            assert forall|sv: Seq<char>, p: int|
                                #[trigger] self.following(sv, p) && self.spec_wants()
                                    is ProcessMe implies m2.following(sv, p) && m2.rank()
                                < self.rank() by {
                                lemma_string_len_prefix(sv);
                            }
                        }
                        Ok(FsmResult::Continue(m2))
                    },
                    Ok(FsmResult::Done(len_int)) => {
                        match len_int.try_to_usize() {
                            Err(e) => {
                                proof {
                                    assert forall|sv: Seq<char>, p: int|
                                        #[trigger] self.following(sv, p) && self.spec_wants()
                                            is ProcessMe implies false by {
                                        let n = encode_utf8(sv).len();
                                        lemma_string_len_prefix(sv);
                                        lemma_le_bytes_props(n);
                                        lemma_spec_dec_content(
                                            SignedState::Unsigned,
                                            le_bytes(n),
                                        );
                                        assert(old_im.following(
                                            SignedState::Unsigned,
                                            le_bytes(n),
                                            p,
                                        ));
                                    }
                                }
                                Err(StringReadError::Integer(e))
                            },
                            Ok(needed) => {
                                let m2 = StringDeserialiser::ReadingContent {
                                    needed,
                                    content_so_far: Vec::new(),
                                };
                                proof {
                                    assert forall|sv: Seq<char>, p: int|
                                        #[trigger] self.following(sv, p) && self.spec_wants()
                                            is ProcessMe implies m2.following(sv, p) && m2.rank()
                                        < self.rank() by {
                                        let b = encode_utf8(sv);
                                        let n = b.len();
                                        lemma_string_len_prefix(sv);
                                        lemma_le_bytes_props(n);
                                        lemma_spec_dec_content(
                                            SignedState::Unsigned,
                                            le_bytes(n),
                                        );
                                        assert(le_value(le_bytes(n)) == n);
                                        assert(m2->content_so_far@ =~= b.subrange(
                                            0,
                                            0,
                                        ));
                                    }
                                }
                                Ok(FsmResult::Continue(m2))
                            },
                        }
                    },
                }
            },
            StringDeserialiser::ReadingContent { needed, content_so_far } => {
                if content_so_far.len() >= needed {
                    let ghost content_view = content_so_far@;
                    match string_from_utf8(content_so_far) {
                        Ok(s) => {
                            proof {
                                assert forall|sv: Seq<char>, p: int|
                                    #[trigger] self.following(sv, p) && self.spec_wants()
                                        is ProcessMe implies p == spec_ser_string(sv).len() && s@
                                    == sv by {
                                    let b = encode_utf8(sv);
                                    lemma_string_len_prefix(sv);
                                    assert(content_view =~= b);
                                    encode_utf8_decode_utf8(sv);
                                }
                            }
                            Ok(FsmResult::Done(s))
                        },
                        Err(e) => {
                            proof {
                                assert forall|sv: Seq<char>, p: int|
                                    #[trigger] self.following(sv, p) && self.spec_wants()
                                        is ProcessMe implies false by {
                                    let b = encode_utf8(sv);
                                    lemma_string_len_prefix(sv);
                                    assert(content_view =~= b);
                                    encode_utf8_valid_utf8(sv);
                                }
                            }
                            Err(StringReadError::String(e))
                        },
                    }
                } else {
                    Ok(
                        FsmResult::Continue(
                            StringDeserialiser::ReadingContent { needed, content_so_far },
                        ),
                    )
                }
            },
        }
    }
}

} // verus!
