//! Domain names: dot-separated label text, wire-encoded as length-prefixed
//! labels closed by a zero byte. Decoding follows at most one backward
//! compression pointer; encoding always writes the full label sequence.

use vstd::prelude::*;

use crate::errors::DecodeError;

verus! {

/// A domain name as its ordered labels; no trailing empty label is stored,
/// so the root name is the empty sequence.
#[derive(Clone, Debug, PartialEq, Eq)]
pub struct DomainName(pub Vec<String>);

/// The character sequences of a sequence of strings.
pub open spec fn strings_view(v: Seq<String>) -> Seq<Seq<char>> {
    Seq::new(v.len(), |i: int| v[i]@)
}

impl View for DomainName {
    type V = Seq<Seq<char>>;

    open spec fn view(&self) -> Seq<Seq<char>> {
        strings_view(self.0@)
    }
}

/// Where the first dot stands in `s`, or the length of `s` if it has none.
pub open spec fn first_dot(s: Seq<char>) -> int
    decreases s.len(),
{
    if s.len() == 0 {
        0
    } else if s[0] == '.' {
        0
    } else {
        1 + first_dot(s.drop_first())
    }
}

/// The pieces of `s` between its dots, in order; a piece may be empty, and
/// text without a dot is one piece.
pub open spec fn split_dots(s: Seq<char>) -> Seq<Seq<char>>
    decreases s.len(),
{
    let i = first_dot(s);
    if !(0 <= i < s.len()) {
        seq![s]
    } else {
        seq![s.take(i)] + split_dots(s.skip(i + 1))
    }
}

/// `first_dot` names the position of a dot, with none before it, or the
/// text's length where there is no dot.
pub proof fn lemma_first_dot_at(t: Seq<char>, k: int)
    requires
        0 <= k <= t.len(),
        forall|i: int| 0 <= i < k ==> #[trigger] t[i] != '.',
        k < t.len() ==> t[k] == '.',
    ensures
        first_dot(t) == k,
    decreases k,
{
    if k == 0 {
    } else {
        assert(t[0] != '.');
        lemma_first_dot_at(t.drop_first(), k - 1);
    }
}

/// A character a label may carry: plain seven-bit text.
pub open spec fn ascii_char(c: char) -> bool {
    '\0' <= c <= '\u{7f}'
}

/// A label the wire can carry: one to sixty-three characters of plain text,
/// so that its length fits the length-prefix byte without touching the two
/// marker bits.
pub open spec fn label_wf(l: Seq<char>) -> bool {
    &&& 1 <= l.len() <= 63
    &&& forall|i: int| 0 <= i < l.len() ==> ascii_char(#[trigger] l[i])
}

/// A name the encoder is owed to handle: every label well-formed.
pub open spec fn name_wf(ls: Seq<Seq<char>>) -> bool {
    forall|i: int| 0 <= i < ls.len() ==> label_wf(#[trigger] ls[i])
}

/// The bytes of one label's text.
pub open spec fn label_bytes(l: Seq<char>) -> Seq<u8> {
    Seq::new(l.len(), |i: int| l[i] as u8)
}

/// The characters spelled by one label's bytes.
pub open spec fn label_chars(b: Seq<u8>) -> Seq<char> {
    Seq::new(b.len(), |i: int| b[i] as char)
}

/// Whether every byte is plain seven-bit text.
pub open spec fn ascii_bytes(b: Seq<u8>) -> bool {
    forall|i: int| 0 <= i < b.len() ==> #[trigger] b[i] < 128
}

/// The wire encoding of a name's labels, without the closing zero byte:
/// each label as a length byte followed by its text.
pub open spec fn encode_name_body(ls: Seq<Seq<char>>) -> Seq<u8>
    decreases ls.len(),
{
    if ls.len() == 0 {
        Seq::empty()
    } else {
        seq![ls[0].len() as u8] + label_bytes(ls[0]) + encode_name_body(ls.drop_first())
    }
}

/// The full wire encoding of a name: its labels closed by a zero byte.
pub open spec fn encode_name(ls: Seq<Seq<char>>) -> Seq<u8> {
    encode_name_body(ls) + seq![0u8]
}

/// Whether a byte opens a compression pointer: its top two bits are set.
pub open spec fn spec_is_pointer_byte(b: u8) -> bool {
    b & 0xc0 == 0xc0
}

/// The offset a two-byte compression pointer at `i` points at: its low
/// fourteen bits, big-endian.
pub open spec fn pointer_target(b: Seq<u8>, i: int) -> int
    recommends
        0 <= i,
        i + 2 <= b.len(),
{
    ((b[i] & 0x3f) as int) * 256 + (b[i + 1] as int)
}

/// What decoding a name at `off` yields: the labels and the offset just past
/// the bytes the name occupies at `off` (a followed pointer costs two bytes
/// here, wherever it leads). `hops` bounds how many pointers may still be
/// followed; one more found beyond it is an invalid pointer chain.
pub open spec fn spec_decode_name(b: Seq<u8>, off: int, hops: nat) -> Result<
    (Seq<Seq<char>>, int),
    DecodeError,
>
    decreases hops, b.len() - off,
{
    if !(0 <= off < b.len()) {
        Err(DecodeError::MalformedName)
    } else if b[off] == 0 {
        Ok((seq![], off + 1))
    } else if spec_is_pointer_byte(b[off]) {
        if off + 2 > b.len() {
            Err(DecodeError::MalformedName)
        } else if hops == 0 {
            Err(DecodeError::InvalidPointerChain)
        } else {
            match spec_decode_name(b, pointer_target(b, off), (hops - 1) as nat) {
                Ok((ls, _)) => Ok((ls, off + 2)),
                Err(e) => Err(e),
            }
        }
    } else {
        let len = b[off] as int;
        if off + 1 + len > b.len() {
            Err(DecodeError::MalformedName)
        } else if !ascii_bytes(b.subrange(off + 1, off + 1 + len)) {
            Err(DecodeError::MalformedName)
        } else {
            match spec_decode_name(b, off + 1 + len, hops) {
                Ok((ls, end)) => Ok(
                    (seq![label_chars(b.subrange(off + 1, off + 1 + len))] + ls, end),
                ),
                Err(e) => Err(e),
            }
        }
    }
}

/// Appending one label to a name extends the encoding of its labels by that
/// label's length byte and text.
pub proof fn lemma_encode_body_take_succ(ls: Seq<Seq<char>>, i: int)
    requires
        0 <= i < ls.len(),
    ensures
        encode_name_body(ls.take(i + 1)) == encode_name_body(ls.take(i)) + seq![
            ls[i].len() as u8,
        ] + label_bytes(ls[i]),
    decreases i,
{
    if i == 0 {
        assert(ls.take(0) =~= Seq::<Seq<char>>::empty());
        assert(ls.take(1).drop_first() =~= Seq::<Seq<char>>::empty());
        assert(encode_name_body(ls.take(1)) =~= encode_name_body(ls.take(0)) + seq![
            ls[0].len() as u8,
        ] + label_bytes(ls[0]));
    } else {
        lemma_encode_body_take_succ(ls.drop_first(), i - 1);
        assert(ls.take(i + 1).drop_first() =~= ls.drop_first().take(i));
        assert(ls.take(i).drop_first() =~= ls.drop_first().take(i - 1));
        assert(encode_name_body(ls.take(i + 1)) =~= encode_name_body(ls.take(i)) + seq![
            ls[i].len() as u8,
        ] + label_bytes(ls[i]));
    }
}

/// The encoding of a prefix of a name's labels is no longer than the
/// encoding of all of them.
pub proof fn lemma_encode_body_take_le(ls: Seq<Seq<char>>, i: int)
    requires
        0 <= i <= ls.len(),
    ensures
        encode_name_body(ls.take(i)).len() <= encode_name_body(ls).len(),
    decreases ls.len() - i,
{
    if i == ls.len() {
        assert(ls.take(i) =~= ls);
    } else {
        lemma_encode_body_take_succ(ls, i);
        lemma_encode_body_take_le(ls, i + 1);
    }
}

/// Wherever the encoding of a well-formed name lies in a buffer, decoding at
/// its start yields exactly that name and stops just past its zero byte,
/// whatever else the buffer holds and whatever the pointer budget.
pub proof fn lemma_decode_encoded(b: Seq<u8>, off: int, ls: Seq<Seq<char>>, hops: nat)
    requires
        name_wf(ls),
        0 <= off,
        off + encode_name(ls).len() <= b.len(),
        b.subrange(off, off + encode_name(ls).len()) == encode_name(ls),
    ensures
        spec_decode_name(b, off, hops) == Ok::<(Seq<Seq<char>>, int), DecodeError>(
            (ls, off + encode_name(ls).len()),
        ),
    decreases ls.len(),
{
    let e = encode_name(ls);
    let n = e.len() as int;
    if ls.len() == 0 {
        assert(e =~= seq![0u8]);
        assert(b[off] == e[0]);
        assert(spec_decode_name(b, off, hops) == Ok::<(Seq<Seq<char>>, int), DecodeError>(
            (Seq::<Seq<char>>::empty(), off + 1),
        ));
        assert(ls =~= Seq::<Seq<char>>::empty());
    } else {
        let l = ls[0];
        let rest = ls.drop_first();
        let lb = l.len() as u8;
        assert(label_wf(l));
        assert(1 <= lb <= 63);
        assert(lb != 0 && !(lb & 0xc0 == 0xc0)) by (bit_vector)
            requires
                1 <= lb <= 63,
        ;
        let ll = l.len() as int;
        assert(e =~= seq![lb] + label_bytes(l) + encode_name(rest));
        assert(b[off] == e[0] && e[0] == lb);
        assert(!spec_is_pointer_byte(b[off]));
        let chunk = b.subrange(off + 1, off + 1 + ll);
        assert forall|j: int| 0 <= j < ll implies #[trigger] chunk[j] == (l[j] as u8) by {
            assert(chunk[j] == b[off + 1 + j]);
            assert(b[off + 1 + j] == e[1 + j]);
            assert(e[1 + j] == label_bytes(l)[j]);
        }
        assert(chunk =~= label_bytes(l));
        assert forall|j: int| 0 <= j < chunk.len() implies #[trigger] chunk[j] < 128 by {
            assert(ascii_char(l[j]));
            assert((l[j] as u32) < 128);
        }
        assert(ascii_bytes(chunk));
        assert(label_chars(chunk) =~= l) by {
            assert forall|j: int| 0 <= j < ll implies #[trigger] label_chars(chunk)[j] == l[j] by {
                assert((l[j] as u32) < 128);
                assert(((l[j] as u8) as char) == l[j]);
            }
        }
        let off2 = off + 1 + ll;
        assert(name_wf(rest)) by {
            assert forall|i: int| 0 <= i < rest.len() implies label_wf(#[trigger] rest[i]) by {
                assert(rest[i] == ls[i + 1]);
            }
        }
        let erest = encode_name(rest);
        assert(b.subrange(off2, off2 + erest.len()) =~= erest) by {
            assert forall|j: int| 0 <= j < erest.len() implies #[trigger] b.subrange(
                off2,
                off2 + erest.len() as int,
            )[j] == erest[j] by {
                assert(b[off2 + j] == e[1 + ll + j]);
                assert(e[1 + ll + j] == erest[j]);
            }
        }
        lemma_decode_encoded(b, off2, rest, hops);
        assert(seq![label_chars(chunk)] + rest =~= ls);
        assert(off2 + erest.len() == off + n);
    }
}

/// Decoding the encoding of a well-formed name gives the name back, with the
/// whole encoding consumed.
pub proof fn lemma_name_roundtrip(ls: Seq<Seq<char>>, hops: nat)
    requires
        name_wf(ls),
    ensures
        spec_decode_name(encode_name(ls), 0, hops) == Ok::<(Seq<Seq<char>>, int), DecodeError>(
            (ls, encode_name(ls).len() as int),
        ),
{
    let e = encode_name(ls);
    assert(e.subrange(0, e.len() as int) =~= e);
    lemma_decode_encoded(e, 0, ls, hops);
}

/// Whether a byte opens a compression pointer.
pub fn is_pointer_byte(byte: u8) -> (r: bool)
    ensures
        r == spec_is_pointer_byte(byte),
{
    byte & 0xc0 == 0xc0
}

/// The offset the compression pointer at `offset` points at.
pub fn read_pointer_offset(buffer: &[u8], offset: usize) -> (r: usize)
    requires
        offset + 2 <= buffer@.len(),
    ensures
        r == pointer_target(buffer@, offset as int),
{
    ((buffer[offset] & 0x3f) as usize) * 256 + (buffer[offset + 1] as usize)
}

impl DomainName {
    /// Every label well-formed: the shape the encoder is owed to handle.
    pub open spec fn wf(&self) -> bool {
        name_wf(self@)
    }

    /// Encodes the name as length-prefixed labels closed by a zero byte.
    #[verifier::loop_isolation(false)]
    pub fn to_bytes(&self) -> (r: Vec<u8>)
        requires
            self.wf(),
        ensures
            r@ == encode_name(self@),
    {
        let mut buffer: Vec<u8> = Vec::new();
        let n = self.0.len();
        let mut i: usize = 0;
        while i < n
            invariant
                i <= n,
                buffer@ == encode_name_body(self@.take(i as int)),
            decreases n - i,
        {
            let label: &String = &self.0[i];
            assert(label@ == self@[i as int]);
            let lab_str = label.as_str();
            assert forall|k: int| 0 <= k < lab_str@.len() implies '\0' <= #[trigger] lab_str@[k]
                <= '\u{7f}' by {
                assert(ascii_char(self@[i as int][k]));
            }
            assert(vstd::string::is_ascii(lab_str));
            broadcast use vstd::string::is_ascii_spec_bytes;

            let bs = lab_str.as_bytes();
            assert(bs@ =~= label_bytes(self@[i as int]));
            buffer.push(bs.len() as u8);
            let ghost mid = buffer@;
            let mut j: usize = 0;
            while j < bs.len()
                invariant
                    j <= bs@.len(),
                    buffer@ == mid + bs@.take(j as int),
                decreases bs@.len() - j,
            {
                buffer.push(bs[j]);
                assert(buffer@ =~= mid + bs@.take(j as int + 1));
                j += 1;
            }
            assert(bs@.take(bs@.len() as int) =~= bs@);
            proof {
                lemma_encode_body_take_succ(self@, i as int);
            }
            assert(buffer@ =~= encode_name_body(self@.take(i as int + 1)));
            i += 1;
        }
        assert(self@.take(n as int) =~= self@);
        buffer.push(0);
        assert(buffer@ =~= encode_name(self@));
        buffer
    }

    /// Decodes the name starting at `offset`, following at most one
    /// compression pointer, and returns it with the offset just past the
    /// bytes the name occupies there.
    pub fn from_bytes(bytes: &[u8], offset: usize) -> (r: Result<(DomainName, usize), DecodeError>)
        ensures
            ({
                let s = spec_decode_name(bytes@, offset as int, 1);
                match r {
                    Ok((name, end)) => s == Ok::<(Seq<Seq<char>>, int), DecodeError>(
                        (name@, end as int),
                    ),
                    Err(e) => s == Err::<(Seq<Seq<char>>, int), DecodeError>(e),
                }
            }),
            r matches Ok(p) ==> offset < p.1 <= bytes@.len(),
    {
        decode(bytes, offset, 1)
    }

    /// Builds the name whose labels are the pieces of `text` between its
    /// dots, in order.
    #[verifier::loop_isolation(false)]
    pub fn from_text(text: &str) -> (r: DomainName)
        ensures
            r@ == split_dots(text@),
    {
        let mut labels: Vec<String> = Vec::new();
        let n = text.unicode_len();
        proof {
            assert(text@.skip(0) =~= text@);
            assert(strings_view(labels@) =~= Seq::<Seq<char>>::empty());
            assert(split_dots(text@) =~~= strings_view(labels@) + split_dots(text@.skip(0)));
        }
        let mut start: usize = 0;
        let mut i: usize = 0;
        while i < n
            invariant
                start <= i <= n,
                n == text@.len(),
                split_dots(text@) == strings_view(labels@) + split_dots(
                    text@.skip(start as int),
                ),
                forall|j: int| start <= j < i ==> #[trigger] text@[j] != '.',
            decreases n - i,
        {
            let c = text.get_char(i);
            if c == '.' {
                let lab = text.substring_char(start, i).to_owned();
                proof {
                    let tail = text@.skip(start as int);
                    assert forall|j: int| 0 <= j < i - start implies #[trigger] tail[j]
                        != '.' by {
                        assert(tail[j] == text@[start + j]);
                    }
                    lemma_first_dot_at(tail, i - start);
                    assert(tail.take(i - start) =~= lab@);
                    assert(tail.skip(i - start + 1) =~= text@.skip(i as int + 1));
                    let pushed = labels@ + seq![lab];
                    assert(strings_view(pushed) =~= strings_view(labels@) + seq![lab@]);
                    assert(split_dots(text@) =~~= strings_view(pushed) + split_dots(
                        text@.skip(i as int + 1),
                    ));
                }
                labels.push(lab);
                start = i + 1;
            }
            i += 1;
        }
        let lab = text.substring_char(start, n).to_owned();
        proof {
            let tail = text@.skip(start as int);
            assert forall|j: int| 0 <= j < tail.len() implies #[trigger] tail[j] != '.' by {
                assert(tail[j] == text@[start + j]);
            }
            lemma_first_dot_at(tail, n - start);
            assert(tail =~= lab@);
            assert(split_dots(tail) =~~= seq![lab@]);
            let pushed = labels@ + seq![lab];
            assert(strings_view(pushed) =~= strings_view(labels@) + seq![lab@]);
            assert(strings_view(pushed) =~~= split_dots(text@));
        }
        labels.push(lab);
        DomainName(labels)
    }

    /// How many bytes the encoded name occupies: one length byte plus the
    /// text per label, and the closing zero byte.
    #[verifier::loop_isolation(false)]
    pub fn size_of(&self) -> (r: usize)
        requires
            self.wf(),
            encode_name(self@).len() <= usize::MAX,
        ensures
            r == encode_name(self@).len(),
    {
        let mut total: usize = 0;
        let n = self.0.len();
        let mut i: usize = 0;
        while i < n
            invariant
                i <= n,
                total == encode_name_body(self@.take(i as int)).len(),
            decreases n - i,
        {
            let label: &String = &self.0[i];
            let lab_str = label.as_str();
            assert(lab_str@ == self@[i as int]);
            assert forall|k: int| 0 <= k < lab_str@.len() implies '\0' <= #[trigger] lab_str@[k]
                <= '\u{7f}' by {
                assert(ascii_char(self@[i as int][k]));
            }
            assert(vstd::string::is_ascii(lab_str));
            broadcast use vstd::string::is_ascii_spec_bytes;

            proof {
                lemma_encode_body_take_succ(self@, i as int);
                lemma_encode_body_take_le(self@, i as int + 1);
            }
            total = total + lab_str.len() + 1;
            i += 1;
        }
        assert(self@.take(n as int) =~= self@);
        total + 1
    }
}

/// Relies on `String::from_utf8`: bytes below 128 are one-byte encodings of
/// exactly the characters with the same code points, so on such input the
/// call succeeds and returns a string of those characters.
#[verifier::external_body]
fn ascii_to_string(bytes: &Vec<u8>) -> (r: String)
    requires
        ascii_bytes(bytes@),
    ensures
        r@ == label_chars(bytes@),
{
    String::from_utf8(bytes.clone()).unwrap()
}

/// Decodes the labels of one name starting at `offset`, following at most
/// `hops` compression pointers, and returns them with the offset just past
/// the name.
#[verifier::loop_isolation(false)]
pub fn decode(buffer: &[u8], offset: usize, hops: usize) -> (r: Result<
    (DomainName, usize),
    DecodeError,
>)
    ensures
        ({
            let s = spec_decode_name(buffer@, offset as int, hops as nat);
            match r {
                Ok((name, end)) => s == Ok::<(Seq<Seq<char>>, int), DecodeError>(
                    (name@, end as int),
                ),
                Err(e) => s == Err::<(Seq<Seq<char>>, int), DecodeError>(e),
            }
        }),
        r matches Ok(p) ==> offset < p.1 <= buffer@.len(),
    decreases hops, buffer@.len() - offset,
{
    if offset >= buffer.len() {
        return Err(DecodeError::MalformedName);
    }
    let value = buffer[offset];
    if value == 0 {
        let name = DomainName(Vec::new());
        assert(name@ =~= Seq::<Seq<char>>::empty());
        Ok((name, offset + 1))
    } else if is_pointer_byte(value) {
        if buffer.len() - offset < 2 {
            Err(DecodeError::MalformedName)
        } else if hops == 0 {
            Err(DecodeError::InvalidPointerChain)
        } else {
            let target = read_pointer_offset(buffer, offset);
            match decode(buffer, target, hops - 1) {
                Ok((name, _)) => Ok((name, offset + 2)),
                Err(e) => Err(e),
            }
        }
    } else {
        let len = value as usize;
        if len > buffer.len() - (offset + 1) {
            return Err(DecodeError::MalformedName);
        }
        let ghost chunk = buffer@.subrange(offset + 1, offset + 1 + len as int);
        let mut label_buf: Vec<u8> = Vec::new();
        let mut j: usize = 0;
        while j < len
            invariant
                offset + 1 + len <= buffer@.len(),
                j <= len,
                label_buf@ == chunk.take(j as int),
                ascii_bytes(label_buf@),
                chunk == buffer@.subrange(offset + 1, offset + 1 + len as int),
                chunk.len() == len,
            decreases len - j,
        {
            let byte = buffer[offset + 1 + j];
            if byte >= 128 {
                assert(chunk[j as int] == byte);
                assert(!ascii_bytes(chunk));
                return Err(DecodeError::MalformedName);
            }
            label_buf.push(byte);
            assert(label_buf@ =~= chunk.take(j as int + 1));
            j += 1;
        }
        assert(label_buf@ =~= chunk);
        let label = ascii_to_string(&label_buf);
        match decode(buffer, offset + 1 + len, hops) {
            Ok((name, end)) => {
                let DomainName(mut labels) = name;
                labels.insert(0, label);
                let out = DomainName(labels);
                assert(out@ =~= seq![label_chars(chunk)] + name@);
                Ok((out, end))
            },
            Err(e) => Err(e),
        }
    }
}

} // verus!
