//! Binary framing of the log records.
//!
//! A record is a tag byte followed by length-prefixed byte strings:
//! `PUT key value` is `[1] len(key) key len(value) value` and `REMOVE key` is
//! `[2] len(key) key`, each length a big-endian `u32`. A record carries its
//! own length, so a log is read back by decoding one record after another.
use vstd::prelude::*;

verus! {

/// Tag byte of a `Put` record.
pub const TAG_PUT: u8 = 1;

/// Tag byte of a `Remove` record.
pub const TAG_REMOVE: u8 = 2;

/// Largest length of a key or a value that a record can hold.
pub const MAX_FIELD_LEN: u64 = 4294967295;

/// One change to the store, as it is written to the log.
#[derive(Clone, Debug, PartialEq, Eq)]
pub enum Command {
    Put { key: Vec<u8>, value: Vec<u8> },
    Remove { key: Vec<u8> },
}

/// The mathematical value of a [`Command`].
pub enum CommandSpec {
    Put { key: Seq<u8>, value: Seq<u8> },
    Remove { key: Seq<u8> },
}

impl View for Command {
    type V = CommandSpec;

    open spec fn view(&self) -> CommandSpec {
        match self {
            Command::Put { key, value } => CommandSpec::Put { key: key@, value: value@ },
            Command::Remove { key } => CommandSpec::Remove { key: key@ },
        }
    }
}

impl CommandSpec {
    pub open spec fn key(self) -> Seq<u8> {
        match self {
            CommandSpec::Put { key, .. } => key,
            CommandSpec::Remove { key } => key,
        }
    }
}

impl Command {
    /// A `Put` record.
    pub fn set(key: Vec<u8>, value: Vec<u8>) -> (r: Command)
        ensures
            r@ == (CommandSpec::Put { key: key@, value: value@ }),
    {
        Command::Put { key, value }
    }

    /// A `Remove` record.
    pub fn remove(key: Vec<u8>) -> (r: Command)
        ensures
            r@ == (CommandSpec::Remove { key: key@ }),
    {
        Command::Remove { key }
    }
}

/// Why a record could not be encoded.
#[derive(Clone, Copy, Debug, PartialEq, Eq, Structural)]
pub enum EncodeError {
    /// A key or a value is longer than a 32-bit length can say.
    FieldTooLong,
    /// The record would end past the largest offset that a log can have.
    LogFull,
}

/// Why bytes could not be decoded as a record.
#[derive(Clone, Copy, Debug, PartialEq, Eq, Structural)]
pub enum DecodeError {
    /// The bytes end before the record does.
    Truncated,
    /// The first byte is no known tag.
    UnknownTag(u8),
}

/// The four big-endian bytes of `n`.
pub open spec fn be32(n: u32) -> Seq<u8> {
    seq![(n >> 24u32) as u8, ((n >> 16u32) & 0xffu32) as u8, ((n >> 8u32) & 0xffu32) as u8, (n & 0xffu32) as u8]
}

/// The big-endian number held in the four bytes of `s` from `at`.
pub open spec fn be32_at(s: Seq<u8>, at: int) -> u32 {
    ((s[at] as u32) << 24u32) | ((s[at + 1] as u32) << 16u32) | ((s[at + 2] as u32) << 8u32) | (s[at + 3] as u32)
}

pub proof fn lemma_be32_round_trip(n: u32)
    ensures
        be32_at(be32(n), 0) == n,
{
    let b0 = (n >> 24u32) as u8;
    let b1 = ((n >> 16u32) & 0xffu32) as u8;
    let b2 = ((n >> 8u32) & 0xffu32) as u8;
    let b3 = (n & 0xffu32) as u8;
    assert(((b0 as u32) << 24u32) | ((b1 as u32) << 16u32) | ((b2 as u32) << 8u32) | (b3 as u32) == n) by (bit_vector)
        requires
            b0 == (n >> 24u32) as u8,
            b1 == ((n >> 16u32) & 0xffu32) as u8,
            b2 == ((n >> 8u32) & 0xffu32) as u8,
            b3 == (n & 0xffu32) as u8,
    ;
}

/// Whether every field of `c` fits a 32-bit length.
pub open spec fn encodable(c: CommandSpec) -> bool {
    match c {
        CommandSpec::Put { key, value } => key.len() <= MAX_FIELD_LEN && value.len() <= MAX_FIELD_LEN,
        CommandSpec::Remove { key } => key.len() <= MAX_FIELD_LEN,
    }
}

/// The bytes of the record for `c`.
pub open spec fn encoding(c: CommandSpec) -> Seq<u8> {
    match c {
        CommandSpec::Put { key, value } => seq![TAG_PUT] + be32(key.len() as u32) + key + be32(
            value.len() as u32,
        ) + value,
        CommandSpec::Remove { key } => seq![TAG_REMOVE] + be32(key.len() as u32) + key,
    }
}

/// Decoding the record at the start of `s`: the command and the length of its
/// record, or why there is none.
#[verifier::opaque]
pub open spec fn parse(s: Seq<u8>) -> Result<(CommandSpec, nat), DecodeError> {
    if s.len() == 0 {
        Err(DecodeError::Truncated)
    } else if s[0] != TAG_PUT && s[0] != TAG_REMOVE {
        Err(DecodeError::UnknownTag(s[0]))
    } else if s.len() < 5 {
        Err(DecodeError::Truncated)
    } else {
        let kend = 5 + be32_at(s, 1);
        if s.len() < kend {
            Err(DecodeError::Truncated)
        } else if s[0] == TAG_REMOVE {
            Ok((CommandSpec::Remove { key: s.subrange(5, kend) }, kend as nat))
        } else if s.len() < kend + 4 {
            Err(DecodeError::Truncated)
        } else {
            let vend = kend + 4 + be32_at(s, kend);
            if s.len() < vend {
                Err(DecodeError::Truncated)
            } else {
                Ok(
                    (
                        CommandSpec::Put { key: s.subrange(5, kend), value: s.subrange(kend + 4, vend) },
                        vend as nat,
                    ),
                )
            }
        }
    }
}

/// A record decodes to the command it was encoded from, whatever follows it.
pub proof fn lemma_round_trip(c: CommandSpec, rest: Seq<u8>)
    requires
        encodable(c),
    ensures
        parse(encoding(c) + rest) == Ok::<(CommandSpec, nat), DecodeError>((c, encoding(c).len())),
{
    reveal(parse);
    let s = encoding(c) + rest;
    match c {
        CommandSpec::Put { key, value } => {
            let kl = key.len() as u32;
            let vl = value.len() as u32;
            lemma_be32_round_trip(kl);
            lemma_be32_round_trip(vl);
            let kend: int = 5 + key.len() as int;
            assert(be32_at(s, 1) == be32_at(be32(kl), 0));
            assert(be32_at(s, kend) == be32_at(be32(vl), 0));
            assert(s.subrange(5, kend) =~= key);
            assert(s.subrange(kend + 4, kend + 4 + value.len() as int) =~= value);
        },
        CommandSpec::Remove { key } => {
            let kl = key.len() as u32;
            lemma_be32_round_trip(kl);
            assert(be32_at(s, 1) == be32_at(be32(kl), 0));
            assert(s.subrange(5, 5 + key.len() as int) =~= key);
        },
    }
}

/// A decoded record is at least five bytes long and lies within the bytes.
pub proof fn lemma_parse_bounds(s: Seq<u8>)
    ensures
        parse(s) matches Ok((_, n)) ==> 5 <= n <= s.len(),
{
    reveal(parse);
}

/// A log that starts with a whole record reads as that record's command and
/// then the commands of the rest.
pub proof fn lemma_commands_step(s: Seq<u8>)
    requires
        parse(s) is Ok,
    ensures
        parse(s) matches Ok((c, n)) && commands_of(s) == seq![c] + commands_of(s.subrange(n as int, s.len() as int)),
{
    lemma_parse_bounds(s);
}

/// A decoded record's fields fit their 32-bit lengths.
pub proof fn lemma_parse_encodable(s: Seq<u8>)
    ensures
        parse(s) matches Ok((c, _)) ==> encodable(c),
{
    reveal(parse);
}

/// Bytes after a record do not change how the record decodes.
pub proof fn lemma_parse_prefix(s: Seq<u8>, m: int)
    requires
        parse(s) matches Ok((_, n)) && n <= m <= s.len(),
    ensures
        parse(s.subrange(0, m)) == parse(s),
{
    reveal(parse);
    let t = s.subrange(0, m);
    assert(t[0] == s[0]);
    assert(be32_at(t, 1) == be32_at(s, 1));
    let kend = 5 + be32_at(s, 1);
    if s[0] == TAG_PUT {
        assert(be32_at(t, kend) == be32_at(s, kend));
        let vend = kend + 4 + be32_at(s, kend);
        assert(t.subrange(5, kend) =~= s.subrange(5, kend));
        assert(t.subrange(kend + 4, vend) =~= s.subrange(kend + 4, vend));
    } else {
        assert(t.subrange(5, kend) =~= s.subrange(5, kend));
    }
}

/// Bytes after a whole record do not change how it decodes.
pub proof fn lemma_parse_extend(s: Seq<u8>, more: Seq<u8>)
    requires
        parse(s) is Ok,
    ensures
        parse(s + more) == parse(s),
{
    lemma_parse_bounds(s);
    let t = s + more;
    let n = parse(s)->Ok_0.1;
    lemma_parse_bounds(t);
    reveal(parse);
    assert(t[0] == s[0]);
    assert(be32_at(t, 1) == be32_at(s, 1));
    let kend = 5 + be32_at(s, 1);
    if s[0] == TAG_PUT {
        assert(be32_at(t, kend) == be32_at(s, kend));
        let vend = kend + 4 + be32_at(s, kend);
        assert(t.subrange(5, kend) =~= s.subrange(5, kend));
        assert(t.subrange(kend + 4, vend) =~= s.subrange(kend + 4, vend));
    } else {
        assert(t.subrange(5, kend) =~= s.subrange(5, kend));
    }
}

/// The commands of the records that follow one another from the start of a
/// log, up to the first place where no whole record stands.
pub open spec fn commands_of(s: Seq<u8>) -> Seq<CommandSpec>
    decreases s.len(),
{
    match parse(s) {
        Ok((c, n)) => if 0 < n <= s.len() {
            seq![c] + commands_of(s.subrange(n as int, s.len() as int))
        } else {
            Seq::empty()
        },
        Err(_) => Seq::empty(),
    }
}

/// The bytes of a log written with the records of `cs`, one after another.
pub open spec fn log_of(cs: Seq<CommandSpec>) -> Seq<u8>
    decreases cs.len(),
{
    if cs.len() == 0 {
        Seq::empty()
    } else {
        encoding(cs[0]) + log_of(cs.subrange(1, cs.len() as int))
    }
}

/// Reading back a log gives the commands that were written to it, in order,
/// and a torn record at its end is left out.
pub proof fn lemma_log_round_trip(cs: Seq<CommandSpec>, tail: Seq<u8>)
    requires
        forall|i: int| 0 <= i < cs.len() ==> encodable(#[trigger] cs[i]),
        commands_of(tail) == Seq::<CommandSpec>::empty(),
    ensures
        commands_of(log_of(cs) + tail) == cs,
    decreases cs.len(),
{
    if cs.len() == 0 {
        assert(log_of(cs) + tail =~= tail);
        assert(cs =~= Seq::<CommandSpec>::empty());
    } else {
        let c = cs[0];
        let rest = cs.subrange(1, cs.len() as int);
        assert forall|i: int| 0 <= i < rest.len() implies encodable(#[trigger] rest[i]) by {
            assert(rest[i] == cs[i + 1]);
        }
        lemma_log_round_trip(rest, tail);
        let s = log_of(cs) + tail;
        assert(s =~= encoding(c) + (log_of(rest) + tail));
        lemma_round_trip(c, log_of(rest) + tail);
        lemma_commands_step(s);
        let n = encoding(c).len();
        assert(s.subrange(n as int, s.len() as int) =~= log_of(rest) + tail);
        assert(cs =~= seq![c] + rest);
    }
}

/// An empty log holds no command.
pub proof fn lemma_commands_of_empty()
    ensures
        commands_of(Seq::<u8>::empty()) == Seq::<CommandSpec>::empty(),
{
    reveal(parse);
}

/// Writing one more command appends its record to the log.
pub proof fn lemma_log_of_push(cs: Seq<CommandSpec>, c: CommandSpec)
    ensures
        log_of(cs.push(c)) == log_of(cs) + encoding(c),
    decreases cs.len(),
{
    if cs.len() == 0 {
        assert(cs.push(c).subrange(1, 1) =~= Seq::<CommandSpec>::empty());
        assert(log_of(cs.push(c)) =~= encoding(c) + log_of(Seq::<CommandSpec>::empty()));
        assert(log_of(cs.push(c)) =~= log_of(cs) + encoding(c));
    } else {
        let rest = cs.subrange(1, cs.len() as int);
        lemma_log_of_push(rest, c);
        assert(cs.push(c).subrange(1, cs.len() + 1 as int) =~= rest.push(c));
        assert(log_of(cs.push(c)) =~= log_of(cs) + encoding(c));
    }
}

/// An empty log was written by no command.
pub proof fn lemma_log_of_empty(cs: Seq<CommandSpec>)
    requires
        log_of(cs).len() == 0,
    ensures
        cs == Seq::<CommandSpec>::empty(),
{
    if cs.len() > 0 {
        assert(encoding(cs[0]).len() >= 5);
    }
}

/// Four bytes read as a number and written back are the same bytes.
pub proof fn lemma_be32_bytes(s: Seq<u8>, at: int)
    requires
        0 <= at,
        at + 4 <= s.len(),
    ensures
        be32(be32_at(s, at)) == s.subrange(at, at + 4),
{
    let b0 = s[at];
    let b1 = s[at + 1];
    let b2 = s[at + 2];
    let b3 = s[at + 3];
    let n = be32_at(s, at);
    assert((n >> 24u32) as u8 == b0 && ((n >> 16u32) & 0xffu32) as u8 == b1 && ((n >> 8u32) & 0xffu32)
        as u8 == b2 && (n & 0xffu32) as u8 == b3) by (bit_vector)
        requires
            n == ((b0 as u32) << 24u32) | ((b1 as u32) << 16u32) | ((b2 as u32) << 8u32) | (b3 as u32),
    ;
    assert(be32(n) =~= s.subrange(at, at + 4));
}

/// Bytes that decode as one whole record are that record's encoding.
pub proof fn lemma_parse_canonical(s: Seq<u8>)
    requires
        parse(s) matches Ok((_, n)) && n == s.len(),
    ensures
        parse(s) matches Ok((c, _)) && s == encoding(c),
{
    reveal(parse);
    let c = parse(s)->Ok_0.0;
    lemma_be32_bytes(s, 1);
    let kend = 5 + be32_at(s, 1);
    if s[0] == TAG_PUT {
        lemma_be32_bytes(s, kend);
        assert(s =~= encoding(c));
    } else {
        assert(s =~= encoding(c));
    }
}

/// Appends the bytes of `src` to `buf`.
pub(crate) fn append_bytes(buf: &mut Vec<u8>, src: &[u8])
    ensures
        final(buf)@ == old(buf)@ + src@,
{
    let mut i: usize = 0;
    while i < src.len()
        invariant
            i <= src@.len(),
            buf@ == old(buf)@ + src@.subrange(0, i as int),
        decreases src@.len() - i,
    {
        buf.push(src[i]);
        i = i + 1;
        assert(src@.subrange(0, i as int) =~= src@.subrange(0, i - 1) + seq![src@[i - 1]]);
    }
    assert(src@.subrange(0, i as int) =~= src@);
}

/// Appends the big-endian bytes of `n` to `buf`.
pub(crate) fn append_be32(buf: &mut Vec<u8>, n: u32)
    ensures
        final(buf)@ == old(buf)@ + be32(n),
{
    buf.push((n >> 24u32) as u8);
    buf.push(((n >> 16u32) & 0xffu32) as u8);
    buf.push(((n >> 8u32) & 0xffu32) as u8);
    buf.push((n & 0xffu32) as u8);
    assert(buf@ =~= old(buf)@ + be32(n));
}

/// Appends the record of `message` to `buf`.
///
/// Fails, leaving `buf` as it was, when a field is too long for its 32-bit
/// length.
pub fn encode(message: &Command, buf: &mut Vec<u8>) -> (r: Result<(), EncodeError>)
    ensures
        r is Ok <==> encodable(message@),
        r is Ok ==> final(buf)@ == old(buf)@ + encoding(message@),
        r is Err ==> final(buf)@ == old(buf)@ && r == Err::<(), EncodeError>(EncodeError::FieldTooLong),
{
    match message {
        Command::Put { key, value } => {
            if key.len() as u64 > MAX_FIELD_LEN || value.len() as u64 > MAX_FIELD_LEN {
                return Err(EncodeError::FieldTooLong);
            }
            buf.push(TAG_PUT);
            append_be32(buf, key.len() as u32);
            append_bytes(buf, key.as_slice());
            append_be32(buf, value.len() as u32);
            append_bytes(buf, value.as_slice());
        },
        Command::Remove { key } => {
            if key.len() as u64 > MAX_FIELD_LEN {
                return Err(EncodeError::FieldTooLong);
            }
            buf.push(TAG_REMOVE);
            append_be32(buf, key.len() as u32);
            append_bytes(buf, key.as_slice());
        },
    }
    assert(buf@ =~= old(buf)@ + encoding(message@));
    Ok(())
}

/// The number held in the four bytes of `buf` from `at`.
pub(crate) fn read_be32(buf: &[u8], at: usize) -> (r: u32)
    requires
        at + 4 <= buf@.len(),
    ensures
        r == be32_at(buf@, at as int),
{
    ((buf[at] as u32) << 24u32) | ((buf[at + 1] as u32) << 16u32) | ((buf[at + 2] as u32) << 8u32) | (
    buf[at + 3] as u32)
}

/// A copy of the bytes of `buf` from `start` to `end`.
fn copy_range(buf: &[u8], start: usize, end: usize) -> (r: Vec<u8>)
    requires
        start <= end <= buf@.len(),
    ensures
        r@ == buf@.subrange(start as int, end as int),
{
    let mut r: Vec<u8> = Vec::new();
    append_bytes(&mut r, &buf[start..end]);
    assert(r@ =~= buf@.subrange(start as int, end as int));
    r
}

/// Decodes the record at the start of `buf`, and says how many bytes it took.
pub fn decode(buf: &[u8]) -> (r: Result<(Command, usize), DecodeError>)
    ensures
        match parse(buf@) {
            Ok((c, n)) => r matches Ok((m, k)) && m@ == c && k == n,
            Err(e) => r == Err::<(Command, usize), DecodeError>(e),
        },
{
    reveal(parse);
    let len = buf.len();
    if len == 0 {
        return Err(DecodeError::Truncated);
    }
    let tag = buf[0];
    if tag != TAG_PUT && tag != TAG_REMOVE {
        return Err(DecodeError::UnknownTag(tag));
    }
    if len < 5 {
        return Err(DecodeError::Truncated);
    }
    let klen = read_be32(buf, 1);
    if ((len - 5) as u64) < klen as u64 {
        return Err(DecodeError::Truncated);
    }
    let kend = 5 + klen as usize;
    let key = copy_range(buf, 5, kend);
    if tag == TAG_REMOVE {
        return Ok((Command::Remove { key }, kend));
    }
    if len - kend < 4 {
        return Err(DecodeError::Truncated);
    }
    let vlen = read_be32(buf, kend);
    if ((len - kend - 4) as u64) < vlen as u64 {
        return Err(DecodeError::Truncated);
    }
    let vend = kend + 4 + vlen as usize;
    let value = copy_range(buf, kend + 4, vend);
    Ok((Command::Put { key, value }, vend))
}

} // verus!
