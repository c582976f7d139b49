//! The command model: reading a command out of a request frame, running it
//! against a store, and turning the outcome into a response frame.
use vstd::prelude::*;
use vstd::slice::slice_to_vec;
use vstd::utf8::*;

use crate::codec::string_from_utf8;
use crate::frame::{
    bytes_of_items, decode_spec, encode_spec, fits_len, law_round_trip, Frame, FrameView, Parsed,
    MAX_LEN,
};
use crate::store::Store;

verus! {

/// A request the server can run.
#[derive(Clone, Debug, PartialEq, Eq)]
pub enum Command {
    SetValue { key: String, value: Vec<u8> },
    GetValue { key: String },
}

pub enum CommandView {
    SetValue(Seq<char>, Seq<u8>),
    GetValue(Seq<char>),
}

impl View for Command {
    type V = CommandView;

    open spec fn view(&self) -> CommandView {
        match self {
            Command::SetValue { key, value } => CommandView::SetValue(key@, value@),
            Command::GetValue { key } => CommandView::GetValue(key@),
        }
    }
}

/// Why a request frame has the wrong shape.
#[derive(PartialEq, Eq, Structural, Clone, Copy, Debug)]
pub enum Malformed {
    /// The frame is not an aggregate of bulk payloads.
    NotAnArray,
    /// The aggregate is empty.
    NoCommandName,
    /// The command has the wrong number of arguments.
    WrongArgCount,
    /// The key is not valid UTF-8.
    InvalidKey,
    /// The command name is not valid UTF-8.
    InvalidName,
}

/// Why a request frame is not a command this server runs.
#[derive(Clone, Debug, PartialEq, Eq)]
pub enum ParseError {
    Malformed(Malformed),
    /// A well-formed request naming a command this server does not know.
    Unsupported(String),
}

pub enum ParseErrorView {
    Malformed(Malformed),
    Unsupported(Seq<char>),
}

impl View for ParseError {
    type V = ParseErrorView;

    open spec fn view(&self) -> ParseErrorView {
        match self {
            ParseError::Malformed(m) => ParseErrorView::Malformed(*m),
            ParseError::Unsupported(name) => ParseErrorView::Unsupported(name@),
        }
    }
}

pub open spec fn ascii_lower(b: u8) -> u8 {
    if 0x41 <= b <= 0x5a {
        (b + 0x20) as u8
    } else {
        b
    }
}

/// `name` spells the lower-case ASCII `word`, ignoring ASCII case.
pub open spec fn name_is(name: Seq<u8>, word: Seq<u8>) -> bool {
    name.len() == word.len() && forall|i: int|
        0 <= i < name.len() ==> ascii_lower(#[trigger] name[i]) == word[i]
}

pub open spec fn word_get() -> Seq<u8> {
    seq![0x67u8, 0x65u8, 0x74u8]
}

pub open spec fn word_set() -> Seq<u8> {
    seq![0x73u8, 0x65u8, 0x74u8]
}

/// The command a request frame stands for.
pub open spec fn parse_spec(f: FrameView) -> Result<CommandView, ParseErrorView> {
    match f {
        FrameView::Array(items) => if items.len() == 0 {
            Err(ParseErrorView::Malformed(Malformed::NoCommandName))
        } else if name_is(items[0], word_get()) {
            if items.len() != 2 {
                Err(ParseErrorView::Malformed(Malformed::WrongArgCount))
            } else if !valid_utf8(items[1]) {
                Err(ParseErrorView::Malformed(Malformed::InvalidKey))
            } else {
                Ok(CommandView::GetValue(decode_utf8(items[1])))
            }
        } else if name_is(items[0], word_set()) {
            if items.len() != 3 {
                Err(ParseErrorView::Malformed(Malformed::WrongArgCount))
            } else if !valid_utf8(items[1]) {
                Err(ParseErrorView::Malformed(Malformed::InvalidKey))
            } else {
                Ok(CommandView::SetValue(decode_utf8(items[1]), items[2]))
            }
        } else if !valid_utf8(items[0]) {
            Err(ParseErrorView::Malformed(Malformed::InvalidName))
        } else {
            Err(ParseErrorView::Unsupported(decode_utf8(items[0])))
        },
        _ => Err(ParseErrorView::Malformed(Malformed::NotAnArray)),
    }
}

pub open spec fn parse_outcome(r: Result<Command, ParseError>) -> Result<
    CommandView,
    ParseErrorView,
> {
    match r {
        Ok(c) => Ok(c@),
        Err(e) => Err(e@),
    }
}

fn lower(b: u8) -> (r: u8)
    ensures
        r == ascii_lower(b),
{
    if 0x41 <= b && b <= 0x5a {
        b + 0x20
    } else {
        b
    }
}

fn spells(name: &Vec<u8>, w0: u8, w1: u8, w2: u8) -> (r: bool)
    ensures
        r == name_is(name@, seq![w0, w1, w2]),
{
    name.len() == 3 && lower(name[0]) == w0 && lower(name[1]) == w1 && lower(name[2]) == w2
}

/// Reads a command out of a request frame.
pub fn parse(frame: Frame) -> (r: Result<Command, ParseError>)
    ensures
        parse_outcome(r) == parse_spec(frame@),
{
    match frame {
        Frame::Array(items) => {
            let mut items = items;
            let ghost model = bytes_of_items(items);
            if items.len() == 0 {
                return Err(ParseError::Malformed(Malformed::NoCommandName));
            }
            assert(model[0] == items[0]@);
            let is_get = spells(&items[0], 0x67, 0x65, 0x74);
            let is_set = spells(&items[0], 0x73, 0x65, 0x74);
            assert(seq![0x67u8, 0x65u8, 0x74u8] == word_get());
            assert(seq![0x73u8, 0x65u8, 0x74u8] == word_set());
            if is_get || is_set {
                let want: usize = if is_get {
                    2
                } else {
                    3
                };
                if items.len() != want {
                    return Err(ParseError::Malformed(Malformed::WrongArgCount));
                }
                let ghost before = items@;
                let value = if is_get {
                    None
                } else {
                    items.pop()
                };
                assert(items@ =~= before.take(2));
                assert(model[1] == items[1]@);
                let key_bytes = items.pop().unwrap();
                match string_from_utf8(key_bytes) {
                    None => Err(ParseError::Malformed(Malformed::InvalidKey)),
                    Some(key) => {
                        match value {
                            Some(value) => {
                                assert(value@ == model[2]);
                                Ok(Command::SetValue { key, value })
                            },
                            None => Ok(Command::GetValue { key }),
                        }
                    },
                }
            } else {
                let name_bytes = items.remove(0);
                match string_from_utf8(name_bytes) {
                    None => Err(ParseError::Malformed(Malformed::InvalidName)),
                    Some(name) => Err(ParseError::Unsupported(name)),
                }
            }
        },
        _ => Err(ParseError::Malformed(Malformed::NotAnArray)),
    }
}

// ---------------------------------------------------------------------------
// Running commands
pub open spec fn command_fits(c: CommandView) -> bool {
    match c {
        CommandView::SetValue(_, v) => fits_len(v.len() as int),
        CommandView::GetValue(_) => true,
    }
}

/// The store after running a command, and the response frame.
pub open spec fn apply_spec(m: Map<Seq<char>, Seq<u8>>, c: CommandView) -> (
    Map<Seq<char>, Seq<u8>>,
    FrameView,
) {
    match c {
        CommandView::SetValue(k, v) => (m.insert(k, v), FrameView::Simple("OK"@)),
        CommandView::GetValue(k) => (
            m,
            if m.contains_key(k) {
                FrameView::Bulk(m[k])
            } else {
                FrameView::Null
            },
        ),
    }
}

proof fn lemma_ascii_len(s: Seq<char>)
    requires
        is_ascii_chars(s),
    ensures
        encode_utf8(s).len() == s.len(),
{
    is_ascii_chars_encode_utf8(s);
}

proof fn lemma_encode_concat(a: Seq<char>, b: Seq<char>)
    ensures
        encode_utf8(a + b) == encode_utf8(a) + encode_utf8(b),
    decreases a.len(),
{
    if a.len() == 0 {
        assert(a + b =~= b);
        assert(encode_utf8(a) + encode_utf8(b) =~= encode_utf8(b));
    } else {
        assert((a + b).drop_first() =~= a.drop_first() + b);
        assert((a + b)[0] == a[0]);
        lemma_encode_concat(a.drop_first(), b);
        assert(encode_utf8(a + b) =~= encode_utf8(a) + encode_utf8(b));
    }
}

/// Runs a command against the store.
pub fn apply(store: &mut Store, cmd: Command) -> (r: Frame)
    requires
        old(store).wf(),
        command_fits(cmd@),
    ensures
        final(store).wf(),
        final(store)@ == apply_spec(old(store)@, cmd@).0,
        r@ == apply_spec(old(store)@, cmd@).1,
        r@.wf(),
{
    match cmd {
        Command::SetValue { key, value } => {
            store.set(key, value);
            proof {
                reveal_strlit("OK");
                lemma_ascii_len("OK"@);
            }
            Frame::Simple(String::from_str("OK"))
        },
        Command::GetValue { key } => match store.get(&key) {
            Some(v) => Frame::Bulk(v),
            None => Frame::Null,
        },
    }
}

pub open spec fn unsupported_text(name: Seq<char>) -> Seq<char> {
    if encode_utf8(name).len() + 64 <= MAX_LEN as int {
        "ERR unsupported command '"@ + name + "'"@
    } else {
        "ERR unsupported command"@
    }
}

pub open spec fn malformed_text(m: Malformed) -> Seq<char> {
    match m {
        Malformed::NotAnArray => "ERR protocol error: expected an array of bulk strings"@,
        Malformed::NoCommandName => "ERR protocol error: empty command"@,
        Malformed::WrongArgCount => "ERR protocol error: wrong number of arguments"@,
        Malformed::InvalidKey => "ERR protocol error: key is not valid UTF-8"@,
        Malformed::InvalidName => "ERR protocol error: command name is not valid UTF-8"@,
    }
}

/// The error frame that reports a request that could not be run.
pub open spec fn error_spec(e: ParseErrorView) -> FrameView {
    match e {
        ParseErrorView::Malformed(m) => FrameView::Error(malformed_text(m)),
        ParseErrorView::Unsupported(name) => FrameView::Error(unsupported_text(name)),
    }
}

fn malformed_message(m: Malformed) -> (r: String)
    ensures
        r@ == malformed_text(m),
        fits_len(encode_utf8(r@).len() as int),
{
    match m {
        Malformed::NotAnArray => {
            let t = "ERR protocol error: expected an array of bulk strings";
            proof {
                reveal_strlit("ERR protocol error: expected an array of bulk strings");
                lemma_ascii_len(t@);
            }
            String::from_str(t)
        },
        Malformed::NoCommandName => {
            let t = "ERR protocol error: empty command";
            proof {
                reveal_strlit("ERR protocol error: empty command");
                lemma_ascii_len(t@);
            }
            String::from_str(t)
        },
        Malformed::WrongArgCount => {
            let t = "ERR protocol error: wrong number of arguments";
            proof {
                reveal_strlit("ERR protocol error: wrong number of arguments");
                lemma_ascii_len(t@);
            }
            String::from_str(t)
        },
        Malformed::InvalidKey => {
            let t = "ERR protocol error: key is not valid UTF-8";
            proof {
                reveal_strlit("ERR protocol error: key is not valid UTF-8");
                lemma_ascii_len(t@);
            }
            String::from_str(t)
        },
        Malformed::InvalidName => {
            let t = "ERR protocol error: command name is not valid UTF-8";
            proof {
                reveal_strlit("ERR protocol error: command name is not valid UTF-8");
                lemma_ascii_len(t@);
            }
            String::from_str(t)
        },
    }
}

fn unsupported_message(name: String) -> (r: String)
    ensures
        r@ == unsupported_text(name@),
        fits_len(encode_utf8(r@).len() as int),
{
    let n = name.as_str().as_bytes().len();
    let head = "ERR unsupported command '";
    let tail = "'";
    proof {
        reveal_strlit("ERR unsupported command '");
        reveal_strlit("'");
        lemma_ascii_len(head@);
        lemma_ascii_len(tail@);
    }
    if n <= (MAX_LEN - 64) as usize {
        let mut msg = String::from_str(head);
        msg.append(name.as_str());
        msg.append(tail);
        proof {
            lemma_encode_concat(head@, name@);
            lemma_encode_concat(head@ + name@, tail@);
        }
        msg
    } else {
        let t = "ERR unsupported command";
        proof {
            reveal_strlit("ERR unsupported command");
            lemma_ascii_len(t@);
        }
        String::from_str(t)
    }
}

/// The error frame that reports a request that could not be run.
pub fn error_response(e: ParseError) -> (r: Frame)
    ensures
        r@ == error_spec(e@),
        r@.wf(),
{
    match e {
        ParseError::Malformed(m) => Frame::Error(malformed_message(m)),
        ParseError::Unsupported(name) => Frame::Error(unsupported_message(name)),
    }
}

/// The store after serving one request frame, and the response frame.
pub open spec fn respond_spec(m: Map<Seq<char>, Seq<u8>>, f: FrameView) -> (
    Map<Seq<char>, Seq<u8>>,
    FrameView,
) {
    match parse_spec(f) {
        Ok(c) => apply_spec(m, c),
        Err(e) => (m, error_spec(e)),
    }
}

/// Serves one request frame: runs the command it holds, or reports why it
/// cannot be run.
pub fn respond(store: &mut Store, frame: Frame) -> (r: Frame)
    requires
        old(store).wf(),
        frame@.wf(),
    ensures
        final(store).wf(),
        final(store)@ == respond_spec(old(store)@, frame@).0,
        r@ == respond_spec(old(store)@, frame@).1,
        r@.wf(),
{
    proof {
        if let FrameView::Array(items) = frame@ {
            if items.len() == 3 {
                assert(fits_len(items[2].len() as int));
            }
        }
    }
    match parse(frame) {
        Ok(cmd) => apply(store, cmd),
        Err(e) => error_response(e),
    }
}

/// The store after running commands one after the other.
pub open spec fn apply_all(m: Map<Seq<char>, Seq<u8>>, cmds: Seq<CommandView>) -> Map<
    Seq<char>,
    Seq<u8>,
>
    decreases cmds.len(),
{
    if cmds.len() == 0 {
        m
    } else {
        apply_spec(apply_all(m, cmds.drop_last()), cmds.last()).0
    }
}

/// The command writes to key `k`.
pub open spec fn writes_key(c: CommandView, k: Seq<char>) -> bool {
    match c {
        CommandView::SetValue(key, _) => key == k,
        CommandView::GetValue(_) => false,
    }
}

/// After two writes to one key, reading it gives the later value; reading a
/// key of a fresh store gives null.
pub proof fn law_last_write_wins(
    m: Map<Seq<char>, Seq<u8>>,
    k: Seq<char>,
    v1: Seq<u8>,
    v2: Seq<u8>,
)
    ensures
        apply_spec(
            apply_all(m, seq![CommandView::SetValue(k, v1), CommandView::SetValue(k, v2)]),
            CommandView::GetValue(k),
        ).1 == FrameView::Bulk(v2),
        apply_spec(Map::<Seq<char>, Seq<u8>>::empty(), CommandView::GetValue(k)).1
            == FrameView::Null,
{
    let cmds = seq![CommandView::SetValue(k, v1), CommandView::SetValue(k, v2)];
    assert(cmds.drop_last().drop_last() =~= Seq::<CommandView>::empty());
    assert(apply_all(m, cmds.drop_last().drop_last()) == m);
    assert(cmds.drop_last().last() == CommandView::SetValue(k, v1));
    assert(apply_all(m, cmds.drop_last()) == m.insert(k, v1));
}

/// A client that wrote `v` under `k` reads `v` back, whatever commands
/// other clients ran in between, as long as none of them wrote to `k`.
pub proof fn law_own_writes_visible(
    m: Map<Seq<char>, Seq<u8>>,
    k: Seq<char>,
    v: Seq<u8>,
    others: Seq<CommandView>,
)
    requires
        forall|i: int| 0 <= i < others.len() ==> !writes_key(#[trigger] others[i], k),
    ensures
        apply_spec(
            apply_all(m.insert(k, v), others),
            CommandView::GetValue(k),
        ).1 == FrameView::Bulk(v),
    decreases others.len(),
{
    if others.len() > 0 {
        assert forall|i: int| 0 <= i < others.drop_last().len() implies !writes_key(
            #[trigger] others.drop_last()[i],
            k,
        ) by {
            assert(others.drop_last()[i] == others[i]);
        }
        law_own_writes_visible(m, k, v, others.drop_last());
        assert(!writes_key(others[others.len() - 1], k));
    }
}

// ---------------------------------------------------------------------------
// Requests
pub open spec fn word_get_upper() -> Seq<u8> {
    seq![0x47u8, 0x45u8, 0x54u8]
}

pub open spec fn word_set_upper() -> Seq<u8> {
    seq![0x53u8, 0x45u8, 0x54u8]
}

/// The request frame a client sends for a command.
pub open spec fn request_spec(c: CommandView) -> FrameView {
    match c {
        CommandView::SetValue(k, v) => FrameView::Array(
            seq![word_set_upper(), encode_utf8(k), v],
        ),
        CommandView::GetValue(k) => FrameView::Array(seq![word_get_upper(), encode_utf8(k)]),
    }
}

/// Builds the request frame for a command.
pub fn command_request(cmd: &Command) -> (r: Frame)
    ensures
        r@ == request_spec(cmd@),
{
    let mut items: Vec<Vec<u8>> = Vec::new();
    match cmd {
        Command::SetValue { key, value } => {
            items.push(vec![0x53u8, 0x45u8, 0x54u8]);
            items.push(slice_to_vec(key.as_str().as_bytes()));
            items.push(slice_to_vec(value.as_slice()));
        },
        Command::GetValue { key } => {
            items.push(vec![0x47u8, 0x45u8, 0x54u8]);
            items.push(slice_to_vec(key.as_str().as_bytes()));
        },
    }
    assert(bytes_of_items(items) =~= request_spec(cmd@)->Array_0);
    Frame::Array(items)
}

/// Both the key and the value of a command fit in a frame.
pub open spec fn request_fits(c: CommandView) -> bool {
    match c {
        CommandView::SetValue(k, v) => fits_len(encode_utf8(k).len() as int) && fits_len(
            v.len() as int,
        ),
        CommandView::GetValue(k) => fits_len(encode_utf8(k).len() as int),
    }
}

/// Reading the request frame of a command gives the command back unchanged,
/// and, where its key and value fit in a frame, so does sending that frame
/// over the wire first.
pub proof fn law_command_round_trip(c: CommandView)
    ensures
        parse_spec(request_spec(c)) == Ok::<CommandView, ParseErrorView>(c),
        request_fits(c) ==> request_spec(c).wf() && decode_spec(encode_spec(request_spec(c)))
            == Parsed::Done(request_spec(c), encode_spec(request_spec(c)).len() as int),
{
    let items = request_spec(c)->Array_0;
    assert(name_is(items[0], word_set()) == (c is SetValue));
    assert(name_is(items[0], word_get()) == (c is GetValue));
    match c {
        CommandView::SetValue(k, v) => {
            encode_utf8_valid_utf8(k);
            encode_utf8_decode_utf8(k);
        },
        CommandView::GetValue(k) => {
            encode_utf8_valid_utf8(k);
            encode_utf8_decode_utf8(k);
        },
    }
    if request_fits(c) {
        assert(request_spec(c).wf());
        law_round_trip(request_spec(c), seq![]);
    }
}

} // verus!
