//! The packets of the login phase.
use crate::buffer::{bytes_contents, bytes_mut_contents};
use crate::codec::{
    add_hints, followed_by, sum_of, DecodeError, EncodeError, Packet, Transcodeable,
};
use crate::types::array::Array;
use crate::types::json::Json;
use crate::types::string::StringN;
use crate::types::varint::VarInt;
use crate::wire::{lemma_prefix_of_prefix, lemma_rest_of_rest, lemma_skip_skip};
use bytes::{Bytes, BytesMut};
use vstd::prelude::*;

verus! {

/// To the client: the reason it is turned away, a chat value as JSON.
#[derive(Debug, PartialEq, Eq)]
pub struct Disconnect(pub Json);

impl View for Disconnect {
    type V = Seq<char>;

    open spec fn view(&self) -> Seq<char> {
        self.0@
    }
}

impl Packet for Disconnect {
    open spec fn spec_id() -> i32 {
        0x00
    }

    fn id() -> (id: i32) {
        0x00
    }
}

impl Transcodeable for Disconnect {
    /// The fields in the order of their declaration.
    open spec fn encoding(v: Seq<char>) -> Result<Seq<u8>, EncodeError> {
        Json::encoding(v)
    }

    /// The fields in the order of their declaration, each from where the one
    /// before it ended.
    open spec fn parse(s: Seq<u8>) -> Result<(Seq<char>, nat), DecodeError> {
        match Json::parse(s) {
            Err(e) => Err(e),
            Ok((x0, n0)) => {
                Ok((x0, n0))
            },
        }
    }

    proof fn lemma_parse_in_bounds(s: Seq<u8>) {
        Json::lemma_parse_in_bounds(s);
    }

    fn encode(&self, buf: &mut BytesMut) -> (r: Result<(), EncodeError>) {
        self.0.encode(buf)
    }

    fn decode(buf: &mut Bytes) -> (r: Result<Self, DecodeError>) {
        let ghost s = bytes_contents(*buf);
        proof {
            lemma_skip_skip(s, 0, 0);
            assert(s.skip(0) =~= s);
        }
        let ghost s0 = bytes_contents(*buf);
        proof {
            Json::lemma_parse_in_bounds(s0);
        }
        let f0 = match Json::decode(buf) {
            Ok(v) => v,
            Err(e) => {
                proof {
                    lemma_rest_of_rest(bytes_contents(*buf), s0, s);
                }
                return Err(e);
            },
        };
        let ghost n0 = Json::parse(s0).unwrap().1;
        proof {
            lemma_skip_skip(s, 0, n0);
            lemma_skip_skip(s, n0, 0);
        }
        Ok(Disconnect(f0))
    }

    /// The sum of the sizes of the fields, where all are known.
    open spec fn size(v: Seq<char>) -> Option<nat> {
        Json::size(v)
    }

    proof fn lemma_size_is_exact(v: Seq<char>) {
        Json::lemma_size_is_exact(v);
    }

    fn size_hint(&self) -> (r: Option<usize>) {
        self.0.size_hint()
    }
}

/// To the client: the server's key and a token to sign.
pub struct EncryptionRequest {
    pub server_id: StringN<20>,
    pub public_key: Array<u8, VarInt>,
    pub verify_token: Array<u8, VarInt>,
}

impl View for EncryptionRequest {
    type V = (Seq<char>, Seq<u8>, Seq<u8>);

    open spec fn view(&self) -> (Seq<char>, Seq<u8>, Seq<u8>) {
        (self.server_id@, self.public_key@, self.verify_token@)
    }
}

impl Packet for EncryptionRequest {
    open spec fn spec_id() -> i32 {
        0x01
    }

    fn id() -> (id: i32) {
        0x01
    }
}

impl Transcodeable for EncryptionRequest {
    /// The fields in the order of their declaration.
    open spec fn encoding(v: (Seq<char>, Seq<u8>, Seq<u8>)) -> Result<Seq<u8>, EncodeError> {
        followed_by(followed_by(StringN::<20>::encoding(v.0), Array::<u8, VarInt>::encoding(v.1)), Array::<u8, VarInt>::encoding(v.2))
    }

    /// The fields in the order of their declaration, each from where the one
    /// before it ended.
    open spec fn parse(s: Seq<u8>) -> Result<((Seq<char>, Seq<u8>, Seq<u8>), nat), DecodeError> {
        match StringN::<20>::parse(s) {
            Err(e) => Err(e),
            Ok((x0, n0)) => {
                match Array::<u8, VarInt>::parse(s.skip((n0) as int)) {
                    Err(e) => Err(e),
                    Ok((x1, n1)) => {
                        match Array::<u8, VarInt>::parse(s.skip((n0 + n1) as int)) {
                            Err(e) => Err(e),
                            Ok((x2, n2)) => {
                                Ok(((x0, x1, x2), n0 + n1 + n2))
                            },
                        }
                    },
                }
            },
        }
    }

    proof fn lemma_parse_in_bounds(s: Seq<u8>) {
        StringN::<20>::lemma_parse_in_bounds(s);
        if let Ok((_, n0)) = StringN::<20>::parse(s) {
            Array::<u8, VarInt>::lemma_parse_in_bounds(s.skip((n0) as int));
            if let Ok((_, n1)) = Array::<u8, VarInt>::parse(s.skip((n0) as int)) {
                Array::<u8, VarInt>::lemma_parse_in_bounds(s.skip((n0 + n1) as int));
            }
        }
    }

    fn encode(&self, buf: &mut BytesMut) -> (r: Result<(), EncodeError>) {
        let ghost b0 = bytes_mut_contents(*buf);
        let step = self.server_id.encode(buf);
        let ghost b1 = bytes_mut_contents(*buf);
        step?;
        let step = self.public_key.encode(buf);
        let ghost b2 = bytes_mut_contents(*buf);
        proof {
            if step is Err {
                lemma_prefix_of_prefix(b0, b1, b2);
            } else {
                assert(b0.is_prefix_of(b2));
            }
        }
        step?;
        let step = self.verify_token.encode(buf);
        let ghost b3 = bytes_mut_contents(*buf);
        proof {
            if step is Err {
                lemma_prefix_of_prefix(b0, b2, b3);
            } else {
                assert(b0.is_prefix_of(b3));
            }
        }
        step?;
        assert(bytes_mut_contents(*buf) =~= b0 + Self::encoding(self@).unwrap());
        Ok(())
    }

    fn decode(buf: &mut Bytes) -> (r: Result<Self, DecodeError>) {
        let ghost s = bytes_contents(*buf);
        proof {
            lemma_skip_skip(s, 0, 0);
            assert(s.skip(0) =~= s);
        }
        let ghost s0 = bytes_contents(*buf);
        proof {
            StringN::<20>::lemma_parse_in_bounds(s0);
        }
        let f0 = match StringN::<20>::decode(buf) {
            Ok(v) => v,
            Err(e) => {
                proof {
                    lemma_rest_of_rest(bytes_contents(*buf), s0, s);
                }
                return Err(e);
            },
        };
        let ghost n0 = StringN::<20>::parse(s0).unwrap().1;
        proof {
            lemma_skip_skip(s, 0, n0);
            lemma_skip_skip(s, n0, 0);
        }
        let ghost s1 = bytes_contents(*buf);
        proof {
            Array::<u8, VarInt>::lemma_parse_in_bounds(s1);
        }
        let f1 = match Array::<u8, VarInt>::decode(buf) {
            Ok(v) => v,
            Err(e) => {
                proof {
                    lemma_rest_of_rest(bytes_contents(*buf), s1, s);
                }
                return Err(e);
            },
        };
        let ghost n1 = Array::<u8, VarInt>::parse(s1).unwrap().1;
        proof {
            lemma_skip_skip(s, n0, n1);
            lemma_skip_skip(s, n0 + n1, 0);
        }
        let ghost s2 = bytes_contents(*buf);
        proof {
            Array::<u8, VarInt>::lemma_parse_in_bounds(s2);
        }
        let f2 = match Array::<u8, VarInt>::decode(buf) {
            Ok(v) => v,
            Err(e) => {
                proof {
                    lemma_rest_of_rest(bytes_contents(*buf), s2, s);
                }
                return Err(e);
            },
        };
        let ghost n2 = Array::<u8, VarInt>::parse(s2).unwrap().1;
        proof {
            lemma_skip_skip(s, n0 + n1, n2);
            lemma_skip_skip(s, n0 + n1 + n2, 0);
        }
        Ok(EncryptionRequest { server_id: f0, public_key: f1, verify_token: f2 })
    }

    /// The sum of the sizes of the fields, where all are known.
    open spec fn size(v: (Seq<char>, Seq<u8>, Seq<u8>)) -> Option<nat> {
        sum_of(sum_of(StringN::<20>::size(v.0), Array::<u8, VarInt>::size(v.1)), Array::<u8, VarInt>::size(v.2))
    }

    proof fn lemma_size_is_exact(v: (Seq<char>, Seq<u8>, Seq<u8>)) {
        StringN::<20>::lemma_size_is_exact(v.0);
        Array::<u8, VarInt>::lemma_size_is_exact(v.1);
        Array::<u8, VarInt>::lemma_size_is_exact(v.2);
    }

    fn size_hint(&self) -> (r: Option<usize>) {
        add_hints(add_hints(self.server_id.size_hint(), self.public_key.size_hint()), self.verify_token.size_hint())
    }
}

/// To the client: it is logged in, under this UUID and name.
#[derive(Debug, PartialEq, Eq)]
pub struct LoginSuccess {
    pub uuid: u128,
    pub username: StringN<16>,
}

impl View for LoginSuccess {
    type V = (u128, Seq<char>);

    open spec fn view(&self) -> (u128, Seq<char>) {
        (self.uuid@, self.username@)
    }
}

impl Packet for LoginSuccess {
    open spec fn spec_id() -> i32 {
        0x02
    }

    fn id() -> (id: i32) {
        0x02
    }
}

impl Transcodeable for LoginSuccess {
    /// The fields in the order of their declaration.
    open spec fn encoding(v: (u128, Seq<char>)) -> Result<Seq<u8>, EncodeError> {
        followed_by(u128::encoding(v.0), StringN::<16>::encoding(v.1))
    }

    /// The fields in the order of their declaration, each from where the one
    /// before it ended.
    open spec fn parse(s: Seq<u8>) -> Result<((u128, Seq<char>), nat), DecodeError> {
        match u128::parse(s) {
            Err(e) => Err(e),
            Ok((x0, n0)) => {
                match StringN::<16>::parse(s.skip((n0) as int)) {
                    Err(e) => Err(e),
                    Ok((x1, n1)) => {
                        Ok(((x0, x1), n0 + n1))
                    },
                }
            },
        }
    }

    proof fn lemma_parse_in_bounds(s: Seq<u8>) {
        u128::lemma_parse_in_bounds(s);
        if let Ok((_, n0)) = u128::parse(s) {
            StringN::<16>::lemma_parse_in_bounds(s.skip((n0) as int));
        }
    }

    fn encode(&self, buf: &mut BytesMut) -> (r: Result<(), EncodeError>) {
        let ghost b0 = bytes_mut_contents(*buf);
        let step = self.uuid.encode(buf);
        let ghost b1 = bytes_mut_contents(*buf);
        step?;
        let step = self.username.encode(buf);
        let ghost b2 = bytes_mut_contents(*buf);
        proof {
            if step is Err {
                lemma_prefix_of_prefix(b0, b1, b2);
            } else {
                assert(b0.is_prefix_of(b2));
            }
        }
        step?;
        assert(bytes_mut_contents(*buf) =~= b0 + Self::encoding(self@).unwrap());
        Ok(())
    }

    fn decode(buf: &mut Bytes) -> (r: Result<Self, DecodeError>) {
        let ghost s = bytes_contents(*buf);
        proof {
            lemma_skip_skip(s, 0, 0);
            assert(s.skip(0) =~= s);
        }
        let ghost s0 = bytes_contents(*buf);
        proof {
            u128::lemma_parse_in_bounds(s0);
        }
        let f0 = match u128::decode(buf) {
            Ok(v) => v,
            Err(e) => {
                proof {
                    lemma_rest_of_rest(bytes_contents(*buf), s0, s);
                }
                return Err(e);
            },
        };
        let ghost n0 = u128::parse(s0).unwrap().1;
        proof {
            lemma_skip_skip(s, 0, n0);
            lemma_skip_skip(s, n0, 0);
        }
        let ghost s1 = bytes_contents(*buf);
        proof {
            StringN::<16>::lemma_parse_in_bounds(s1);
        }
        let f1 = match StringN::<16>::decode(buf) {
            Ok(v) => v,
            Err(e) => {
                proof {
                    lemma_rest_of_rest(bytes_contents(*buf), s1, s);
                }
                return Err(e);
            },
        };
        let ghost n1 = StringN::<16>::parse(s1).unwrap().1;
        proof {
            lemma_skip_skip(s, n0, n1);
            lemma_skip_skip(s, n0 + n1, 0);
        }
        Ok(LoginSuccess { uuid: f0, username: f1 })
    }

    /// The sum of the sizes of the fields, where all are known.
    open spec fn size(v: (u128, Seq<char>)) -> Option<nat> {
        sum_of(u128::size(v.0), StringN::<16>::size(v.1))
    }

    proof fn lemma_size_is_exact(v: (u128, Seq<char>)) {
        u128::lemma_size_is_exact(v.0);
        StringN::<16>::lemma_size_is_exact(v.1);
    }

    fn size_hint(&self) -> (r: Option<usize>) {
        add_hints(self.uuid.size_hint(), self.username.size_hint())
    }
}

/// To the client: frames from this size on are compressed.
#[derive(Debug, PartialEq, Eq)]
pub struct SetCompression(pub VarInt);

impl View for SetCompression {
    type V = i32;

    open spec fn view(&self) -> i32 {
        self.0@
    }
}

impl Packet for SetCompression {
    open spec fn spec_id() -> i32 {
        0x03
    }

    fn id() -> (id: i32) {
        0x03
    }
}

impl Transcodeable for SetCompression {
    /// The fields in the order of their declaration.
    open spec fn encoding(v: i32) -> Result<Seq<u8>, EncodeError> {
        VarInt::encoding(v)
    }

    /// The fields in the order of their declaration, each from where the one
    /// before it ended.
    open spec fn parse(s: Seq<u8>) -> Result<(i32, nat), DecodeError> {
        match VarInt::parse(s) {
            Err(e) => Err(e),
            Ok((x0, n0)) => {
                Ok((x0, n0))
            },
        }
    }

    proof fn lemma_parse_in_bounds(s: Seq<u8>) {
        VarInt::lemma_parse_in_bounds(s);
    }

    fn encode(&self, buf: &mut BytesMut) -> (r: Result<(), EncodeError>) {
        self.0.encode(buf)
    }

    fn decode(buf: &mut Bytes) -> (r: Result<Self, DecodeError>) {
        let ghost s = bytes_contents(*buf);
        proof {
            lemma_skip_skip(s, 0, 0);
            assert(s.skip(0) =~= s);
        }
        let ghost s0 = bytes_contents(*buf);
        proof {
            VarInt::lemma_parse_in_bounds(s0);
        }
        let f0 = match VarInt::decode(buf) {
            Ok(v) => v,
            Err(e) => {
                proof {
                    lemma_rest_of_rest(bytes_contents(*buf), s0, s);
                }
                return Err(e);
            },
        };
        let ghost n0 = VarInt::parse(s0).unwrap().1;
        proof {
            lemma_skip_skip(s, 0, n0);
            lemma_skip_skip(s, n0, 0);
        }
        Ok(SetCompression(f0))
    }

    /// The sum of the sizes of the fields, where all are known.
    open spec fn size(v: i32) -> Option<nat> {
        VarInt::size(v)
    }

    proof fn lemma_size_is_exact(v: i32) {
        VarInt::lemma_size_is_exact(v);
    }

    fn size_hint(&self) -> (r: Option<usize>) {
        self.0.size_hint()
    }
}

/// To the server: the name that wants to log in.
#[derive(Debug, PartialEq, Eq)]
pub struct LoginStart(pub StringN<16>);

impl View for LoginStart {
    type V = Seq<char>;

    open spec fn view(&self) -> Seq<char> {
        self.0@
    }
}

impl Packet for LoginStart {
    open spec fn spec_id() -> i32 {
        0x00
    }

    fn id() -> (id: i32) {
        0x00
    }
}

impl Transcodeable for LoginStart {
    /// The fields in the order of their declaration.
    open spec fn encoding(v: Seq<char>) -> Result<Seq<u8>, EncodeError> {
        StringN::<16>::encoding(v)
    }

    /// The fields in the order of their declaration, each from where the one
    /// before it ended.
    open spec fn parse(s: Seq<u8>) -> Result<(Seq<char>, nat), DecodeError> {
        match StringN::<16>::parse(s) {
            Err(e) => Err(e),
            Ok((x0, n0)) => {
                Ok((x0, n0))
            },
        }
    }

    proof fn lemma_parse_in_bounds(s: Seq<u8>) {
        StringN::<16>::lemma_parse_in_bounds(s);
    }

    fn encode(&self, buf: &mut BytesMut) -> (r: Result<(), EncodeError>) {
        self.0.encode(buf)
    }

    fn decode(buf: &mut Bytes) -> (r: Result<Self, DecodeError>) {
        let ghost s = bytes_contents(*buf);
        proof {
            lemma_skip_skip(s, 0, 0);
            assert(s.skip(0) =~= s);
        }
        let ghost s0 = bytes_contents(*buf);
        proof {
            StringN::<16>::lemma_parse_in_bounds(s0);
        }
        let f0 = match StringN::<16>::decode(buf) {
            Ok(v) => v,
            Err(e) => {
                proof {
                    lemma_rest_of_rest(bytes_contents(*buf), s0, s);
                }
                return Err(e);
            },
        };
        let ghost n0 = StringN::<16>::parse(s0).unwrap().1;
        proof {
            lemma_skip_skip(s, 0, n0);
            lemma_skip_skip(s, n0, 0);
        }
        Ok(LoginStart(f0))
    }

    /// The sum of the sizes of the fields, where all are known.
    open spec fn size(v: Seq<char>) -> Option<nat> {
        StringN::<16>::size(v)
    }

    proof fn lemma_size_is_exact(v: Seq<char>) {
        StringN::<16>::lemma_size_is_exact(v);
    }

    fn size_hint(&self) -> (r: Option<usize>) {
        self.0.size_hint()
    }
}

/// To the server: the shared secret and the signed token.
pub struct EncryptionResponse {
    pub shared_secret: Array<u8, VarInt>,
    pub verify_token: Array<u8, VarInt>,
}

impl View for EncryptionResponse {
    type V = (Seq<u8>, Seq<u8>);

    open spec fn view(&self) -> (Seq<u8>, Seq<u8>) {
        (self.shared_secret@, self.verify_token@)
    }
}

impl Packet for EncryptionResponse {
    open spec fn spec_id() -> i32 {
        0x01
    }

    fn id() -> (id: i32) {
        0x01
    }
}

impl Transcodeable for EncryptionResponse {
    /// The fields in the order of their declaration.
    open spec fn encoding(v: (Seq<u8>, Seq<u8>)) -> Result<Seq<u8>, EncodeError> {
        followed_by(Array::<u8, VarInt>::encoding(v.0), Array::<u8, VarInt>::encoding(v.1))
    }

    /// The fields in the order of their declaration, each from where the one
    /// before it ended.
    open spec fn parse(s: Seq<u8>) -> Result<((Seq<u8>, Seq<u8>), nat), DecodeError> {
        match Array::<u8, VarInt>::parse(s) {
            Err(e) => Err(e),
            Ok((x0, n0)) => {
                match Array::<u8, VarInt>::parse(s.skip((n0) as int)) {
                    Err(e) => Err(e),
                    Ok((x1, n1)) => {
                        Ok(((x0, x1), n0 + n1))
                    },
                }
            },
        }
    }

    proof fn lemma_parse_in_bounds(s: Seq<u8>) {
        Array::<u8, VarInt>::lemma_parse_in_bounds(s);
        if let Ok((_, n0)) = Array::<u8, VarInt>::parse(s) {
            Array::<u8, VarInt>::lemma_parse_in_bounds(s.skip((n0) as int));
        }
    }

    fn encode(&self, buf: &mut BytesMut) -> (r: Result<(), EncodeError>) {
        let ghost b0 = bytes_mut_contents(*buf);
        let step = self.shared_secret.encode(buf);
        let ghost b1 = bytes_mut_contents(*buf);
        step?;
        let step = self.verify_token.encode(buf);
        let ghost b2 = bytes_mut_contents(*buf);
        proof {
            if step is Err {
                lemma_prefix_of_prefix(b0, b1, b2);
            } else {
                assert(b0.is_prefix_of(b2));
            }
        }
        step?;
        assert(bytes_mut_contents(*buf) =~= b0 + Self::encoding(self@).unwrap());
        Ok(())
    }

    fn decode(buf: &mut Bytes) -> (r: Result<Self, DecodeError>) {
        let ghost s = bytes_contents(*buf);
        proof {
            lemma_skip_skip(s, 0, 0);
            assert(s.skip(0) =~= s);
        }
        let ghost s0 = bytes_contents(*buf);
        proof {
            Array::<u8, VarInt>::lemma_parse_in_bounds(s0);
        }
        let f0 = match Array::<u8, VarInt>::decode(buf) {
            Ok(v) => v,
            Err(e) => {
                proof {
                    lemma_rest_of_rest(bytes_contents(*buf), s0, s);
                }
                return Err(e);
            },
        };
        let ghost n0 = Array::<u8, VarInt>::parse(s0).unwrap().1;
        proof {
            lemma_skip_skip(s, 0, n0);
            lemma_skip_skip(s, n0, 0);
        }
        let ghost s1 = bytes_contents(*buf);
        proof {
            Array::<u8, VarInt>::lemma_parse_in_bounds(s1);
        }
        let f1 = match Array::<u8, VarInt>::decode(buf) {
            Ok(v) => v,
            Err(e) => {
                proof {
                    lemma_rest_of_rest(bytes_contents(*buf), s1, s);
                }
                return Err(e);
            },
        };
        let ghost n1 = Array::<u8, VarInt>::parse(s1).unwrap().1;
        proof {
            lemma_skip_skip(s, n0, n1);
            lemma_skip_skip(s, n0 + n1, 0);
        }
        Ok(EncryptionResponse { shared_secret: f0, verify_token: f1 })
    }

    /// The sum of the sizes of the fields, where all are known.
    open spec fn size(v: (Seq<u8>, Seq<u8>)) -> Option<nat> {
        sum_of(Array::<u8, VarInt>::size(v.0), Array::<u8, VarInt>::size(v.1))
    }

    proof fn lemma_size_is_exact(v: (Seq<u8>, Seq<u8>)) {
        Array::<u8, VarInt>::lemma_size_is_exact(v.0);
        Array::<u8, VarInt>::lemma_size_is_exact(v.1);
    }

    fn size_hint(&self) -> (r: Option<usize>) {
        add_hints(self.shared_secret.size_hint(), self.verify_token.size_hint())
    }
}

} // verus!
