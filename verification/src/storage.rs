use vstd::prelude::*;
use vstd::hash_map::StringHashMap;

use std::time::Duration;
use std::time::SystemTime;

use crate::resp::RESP;
use crate::storage_result::{StorageError, StorageResult};
use crate::text::{
    all_ascii, ascii_lower, ascii_upper, has_text, join, joined, lemma_ascii_lower_of_upper,
    lowercase_of, to_lowercase, views,
};

verus! {

/// `std::time::SystemTime`, declared so that an entry can hold the instant it
/// was created; nothing inside it is visible to the proofs.
#[verifier::external_type_specification]
#[verifier::external_body]
pub struct ExSystemTime(SystemTime);

/// Reads the system clock by calling `SystemTime::now`.
///
/// Trusted, and nothing is promised of the instant it returns.
#[verifier::external_body]
fn now() -> SystemTime {
    SystemTime::now()
}

/// Whether two durations are equal, by calling `Duration`'s `==`.
///
/// Trusted: `Duration`'s `==` is the derived, field-by-field comparison, and
/// is taken to be the equality of the two values.
#[verifier::external_body]
fn same_duration(a: &Duration, b: &Duration) -> (r: bool)
    ensures
        r == (*a == *b),
{
    *a == *b
}

/// A value held in the store.
#[derive(Debug, PartialEq)]
pub enum StorageValue {
    String(String),
}

/// The text of a stored value.
pub open spec fn value_text(v: StorageValue) -> Seq<char> {
    match v {
        StorageValue::String(s) => s@,
    }
}

/// An entry of the store: its value, when it was written, and its expiry.
#[derive(Debug)]
pub struct StorageData {
    pub value: StorageValue,
    pub creation_time: SystemTime,
    pub expiry: Option<Duration>,
}

impl View for StorageData {
    /// The text of the value and the expiry; the instant of creation is read by
    /// nothing here.
    type V = (Seq<char>, Option<Duration>);

    open spec fn view(&self) -> (Seq<char>, Option<Duration>) {
        (value_text(self.value), self.expiry)
    }
}

impl StorageData {
    /// Gives the entry an expiry.
    pub fn add_expiry(&mut self, expiry: Duration)
        ensures
            final(self).value == old(self).value,
            final(self).creation_time == old(self).creation_time,
            final(self).expiry == Some(expiry),
    {
        self.expiry = Some(expiry)
    }
}

impl From<String> for StorageData {
    /// A fresh entry holding `s`, created now, with no expiry.
    fn from(s: String) -> (d: StorageData)
        ensures
            d.value == StorageValue::String(s),
            d.expiry == None::<Duration>,
    {
        StorageData { value: StorageValue::String(s), creation_time: now(), expiry: None }
    }
}

impl vstd::std_specs::convert::FromSpecImpl<String> for StorageData {
    /// The instant of creation comes from the clock, so no single value is
    /// what `from` returns; its own `ensures` says what it keeps.
    open spec fn obeys_from_spec() -> bool {
        false
    }

    open spec fn from_spec(s: String) -> StorageData {
        StorageData { value: StorageValue::String(s), creation_time: arbitrary(), expiry: None }
    }
}

impl PartialEq for StorageData {
    /// Two entries are equal when their values and their expiries are; the
    /// instant of creation is not compared.
    fn eq(&self, other: &Self) -> (r: bool) {
        let same_value = match (&self.value, &other.value) {
            (StorageValue::String(a), StorageValue::String(b)) => *a == *b,
        };
        let same_expiry = match (&self.expiry, &other.expiry) {
            (Some(a), Some(b)) => same_duration(a, b),
            (None, None) => true,
            _ => false,
        };
        same_value && same_expiry
    }
}

impl vstd::std_specs::cmp::PartialEqSpecImpl for StorageData {
    open spec fn obeys_eq_spec() -> bool {
        true
    }

    open spec fn eq_spec(&self, other: &Self) -> bool {
        self@ == other@
    }
}


/// What a store holds, by key: the text of each value and its expiry.
pub type StoreView = Map<Seq<char>, (Seq<char>, Option<Duration>)>;

/// The store of keys and values.
pub struct Storage {
    pub store: StringHashMap<StorageData>,
}

impl View for Storage {
    type V = StoreView;

    open spec fn view(&self) -> StoreView {
        self.store@.map_values(|d: StorageData| d@)
    }
}

/// What a command does, as the client sees it.
pub enum Outcome {
    /// `+PONG`.
    Pong,
    /// The argument, as a bulk string.
    Echo(Seq<char>),
    /// `+OK` after a write.
    Stored,
    /// The value of a key, as a bulk string.
    Found(Seq<char>),
    /// The null reply: the key has no value.
    Missing,
    /// The command is unknown; it carries the command's name as given.
    NotAvailable(Seq<char>),
    /// The command's arguments are wrong; it carries the whole command joined
    /// by single spaces.
    SyntaxError(Seq<char>),
}

/// Whether `r` is the reply that stands for outcome `o`.
pub open spec fn answers(r: StorageResult<RESP>, o: Outcome) -> bool {
    match o {
        Outcome::Pong => r matches Ok(RESP::SimpleString(s)) && s@ == "PONG"@,
        Outcome::Echo(t) => r matches Ok(RESP::BulkString(s)) && s@ == t,
        Outcome::Stored => r matches Ok(RESP::SimpleString(s)) && s@ == "OK"@,
        Outcome::Found(t) => r matches Ok(RESP::BulkString(s)) && s@ == t,
        Outcome::Missing => r matches Ok(RESP::Null),
        Outcome::NotAvailable(c) => r matches Err(StorageError::CommandNotAvailable(s)) && s@ == c,
        Outcome::SyntaxError(t) => r matches Err(StorageError::CommandSyntaxError(s)) && s@ == t,
    }
}

/// The store after `key` is set to `value`: the value replaces any earlier
/// one, and has no expiry.
pub open spec fn stored(m: StoreView, key: Seq<char>, value: Seq<char>) -> StoreView {
    m.insert(key, (value, None))
}

/// The text of the value of `key`, if it has one.
pub open spec fn value_of(m: StoreView, key: Seq<char>) -> Option<Seq<char>> {
    if m.contains_key(key) {
        Some(m[key].0)
    } else {
        None
    }
}

/// `GET key`: the value of the key, or the null reply.
pub open spec fn get_outcome(m: StoreView, cmd: Seq<Seq<char>>) -> Outcome {
    if cmd.len() != 2 {
        Outcome::SyntaxError(joined(cmd, " "@))
    } else {
        match value_of(m, cmd[1]) {
            Some(v) => Outcome::Found(v),
            None => Outcome::Missing,
        }
    }
}

/// What a command whose lower-cased name is `name` does: the store after it,
/// and its reply. Only `SET` with a key and a value changes the store.
pub open spec fn run_command(m: StoreView, cmd: Seq<Seq<char>>, name: Seq<char>) -> (
    StoreView,
    Outcome,
) {
    if name == "ping"@ {
        (m, Outcome::Pong)
    } else if name == "echo"@ {
        (m, Outcome::Echo(cmd[1]))
    } else if name == "get"@ {
        (m, get_outcome(m, cmd))
    } else if name == "set"@ {
        if cmd.len() == 3 {
            (stored(m, cmd[1], cmd[2]), Outcome::Stored)
        } else {
            (m, Outcome::SyntaxError(joined(cmd, " "@)))
        }
    } else {
        (m, Outcome::NotAvailable(cmd[0]))
    }
}

/// The entries that a command whose lower-cased name is `name` does not
/// write stay exactly as they were, the instant of their creation included.
pub open spec fn other_entries_kept(
    before: Storage,
    after: Storage,
    cmd: Seq<Seq<char>>,
    name: Seq<char>,
) -> bool {
    if name == "set"@ && cmd.len() == 3 {
        after.store@.remove(cmd[1]) == before.store@.remove(cmd[1])
    } else {
        after.store@ == before.store@
    }
}

/// A command that can be answered: it has a name, and `ECHO` has an argument.
pub open spec fn well_formed_command(cmd: Seq<Seq<char>>, name: Seq<char>) -> bool {
    &&& cmd.len() >= 1
    &&& name == "echo"@ ==> cmd.len() >= 2
}

impl Storage {
    /// An empty store.
    pub fn new() -> (s: Self)
        ensures
            s@ == StoreView::empty(),
            s@.dom().finite(),
    {
        let store: StringHashMap<StorageData> = StringHashMap::new();
        let s = Self { store: store };
        assert(s@ =~= StoreView::empty());
        s
    }

    /// Runs a command: `PING`, `ECHO`, `GET` or `SET`, named in any case.
    pub fn process_command(&mut self, command: &Vec<String>) -> (r: StorageResult<RESP>)
        requires
            well_formed_command(views(command@), lowercase_of(command@[0]@)),
        ensures
            final(self)@ == run_command(old(self)@, views(command@), lowercase_of(command@[0]@)).0,
            other_entries_kept(*old(self), *final(self), views(command@), lowercase_of(command@[0]@)),
            answers(r, run_command(old(self)@, views(command@), lowercase_of(command@[0]@)).1),
            all_ascii(command@[0]@) ==> {
                let name = ascii_lower(command@[0]@);
                &&& final(self)@ == run_command(old(self)@, views(command@), name).0
                &&& answers(r, run_command(old(self)@, views(command@), name).1)
            },
    {
        let name = to_lowercase(command[0].as_str());
        self.process_named_command(command, &name)
    }

    /// Runs a command when it can be answered: when it has a name, and `ECHO`
    /// has an argument. Otherwise gives `None` and leaves the store as it was.
    pub fn try_process_command(&mut self, command: &Vec<String>) -> (r: Option<
        StorageResult<RESP>,
    >)
        ensures
            command.len() == 0 ==> r is None && final(self).store@ == old(self).store@,
            command.len() >= 1 ==> {
                let name = lowercase_of(command@[0]@);
                if well_formed_command(views(command@), name) {
                    &&& r matches Some(x) && answers(x, run_command(old(self)@, views(command@), name).1)
                    &&& final(self)@ == run_command(old(self)@, views(command@), name).0
                    &&& other_entries_kept(*old(self), *final(self), views(command@), name)
                } else {
                    r is None && final(self).store@ == old(self).store@
                }
            },
    {
        if command.len() == 0 {
            return None;
        }
        let name = to_lowercase(command[0].as_str());
        if has_text(&name, "echo") && command.len() < 2 {
            return None;
        }
        assert(views(command@)[0] == command@[0]@);
        Some(self.process_named_command(command, &name))
    }

    /// Runs a command, given its name lower-cased in `name`.
    pub fn process_named_command(&mut self, command: &Vec<String>, name: &String) -> (r:
        StorageResult<RESP>)
        requires
            well_formed_command(views(command@), name@),
        ensures
            final(self)@ == run_command(old(self)@, views(command@), name@).0,
            other_entries_kept(*old(self), *final(self), views(command@), name@),
            answers(r, run_command(old(self)@, views(command@), name@).1),
    {
        proof {
            if command.len() >= 2 {
                assert(views(command@)[1] == command@[1]@);
            }
            if command.len() >= 3 {
                assert(views(command@)[2] == command@[2]@);
            }
        }
        if has_text(name, "ping") {
            self.command_ping(command)
        } else if has_text(name, "echo") {
            self.command_echo(command)
        } else if has_text(name, "get") {
            self.command_get(command)
        } else if has_text(name, "set") {
            self.command_set(command)
        } else {
            assert(views(command@)[0] == command@[0]@);
            Err(StorageError::CommandNotAvailable(command[0].clone()))
        }
    }

    /// `PING`: answers `PONG`, whatever follows.
    pub fn command_ping(&self, _command: &Vec<String>) -> (r: StorageResult<RESP>)
        ensures
            answers(r, Outcome::Pong),
    {
        Ok(RESP::SimpleString(String::from_str("PONG")))
    }

    /// `ECHO message`: answers the message.
    pub fn command_echo(&self, command: &Vec<String>) -> (r: StorageResult<RESP>)
        requires
            command.len() >= 2,
        ensures
            answers(r, Outcome::Echo(command@[1]@)),
    {
        Ok(RESP::BulkString(command[1].clone()))
    }

    /// Sets `key` to `value`, replacing any earlier value, with no expiry.
    pub fn set(&mut self, key: String, value: String) -> (r: StorageResult<String>)
        ensures
            final(self)@ == stored(old(self)@, key@, value@),
            final(self).store@.remove(key@) == old(self).store@.remove(key@),
            old(self)@.dom().finite() ==> final(self)@.dom().finite(),
            r matches Ok(s) && s@ == "OK"@,
    {
        let ghost k = key@;
        let ghost v = value@;
        let d = StorageData::from(value);
        assert(d@ == (v, None::<Duration>));
        self.store.insert(key, d);
        assert(self@ =~= stored(old(self)@, k, v));
        Ok(String::from_str("OK"))
    }

    /// The value of `key`, if it has one.
    pub fn get(&self, key: String) -> (r: StorageResult<Option<String>>)
        ensures
            match value_of(self@, key@) {
                Some(v) => r matches Ok(Some(s)) && s@ == v,
                None => r matches Ok(None),
            },
    {
        match self.store.get(key.as_str()) {
            Some(StorageData { value: StorageValue::String(v), creation_time: _, expiry: _ }) => {
                return Ok(Some(v.clone()));
            },
            None => {
                return Ok(None);
            },
        }
    }

    /// `SET key value`.
    pub fn command_set(&mut self, command: &Vec<String>) -> (r: StorageResult<RESP>)
        ensures
            command.len() == 3 ==> final(self)@ == stored(old(self)@, command@[1]@, command@[2]@),
            command.len() == 3 ==> final(self).store@.remove(command@[1]@) == old(
                self,
            ).store@.remove(command@[1]@),
            command.len() != 3 ==> final(self).store@ == old(self).store@,
            answers(
                r,
                if command.len() == 3 {
                    Outcome::Stored
                } else {
                    Outcome::SyntaxError(joined(views(command@), " "@))
                },
            ),
    {
        if command.len() != 3 {
            return Err(StorageError::CommandSyntaxError(join(command, " ")));
        }
        let _ = self.set(command[1].clone(), command[2].clone());
        Ok(RESP::SimpleString(String::from_str("OK")))
    }

    /// `GET key`.
    pub fn command_get(&mut self, command: &Vec<String>) -> (r: StorageResult<RESP>)
        ensures
            final(self).store@ == old(self).store@,
            answers(r, get_outcome(old(self)@, views(command@))),
    {
        if command.len() != 2 {
            return Err(StorageError::CommandSyntaxError(join(command, " ")));
        }
        assert(views(command@)[1] == command@[1]@);
        let output = self.get(command[1].clone());
        match output {
            Ok(Some(v)) => Ok(RESP::BulkString(v)),
            Ok(None) => Ok(RESP::Null),
            Err(_) => Err(StorageError::CommandInternalError(join(command, " "))),
        }
    }
}


/// A read gives back what the last write of the key wrote.
pub proof fn law_read_after_write(m: StoreView, key: Seq<char>, value: Seq<char>)
    ensures
        value_of(stored(m, key, value), key) == Some(value),
{
}

/// A write leaves every other key as it was.
pub proof fn law_write_keeps_other_keys(
    m: StoreView,
    key: Seq<char>,
    value: Seq<char>,
    other: Seq<char>,
)
    requires
        other != key,
    ensures
        value_of(stored(m, key, value), other) == value_of(m, other),
{
}

/// Of two writes of one key, the second wins, and the first leaves no trace.
pub proof fn law_last_write_wins(m: StoreView, key: Seq<char>, first: Seq<char>, second: Seq<char>)
    ensures
        stored(stored(m, key, first), key, second) == stored(m, key, second),
{
    assert(stored(stored(m, key, first), key, second) =~= stored(m, key, second));
}

/// A write adds one entry when the key is new, and none when it replaces a value.
pub proof fn law_write_size(m: StoreView, key: Seq<char>, value: Seq<char>)
    requires
        m.dom().finite(),
    ensures
        stored(m, key, value).len() == if m.contains_key(key) {
            m.len()
        } else {
            m.len() + 1
        },
{
}

/// Only `SET` changes the store: every other command leaves it as it was.
pub proof fn law_only_set_writes(m: StoreView, cmd: Seq<Seq<char>>, name: Seq<char>)
    requires
        name != "set"@,
    ensures
        run_command(m, cmd, name).0 == m,
{
}

/// `SET key value` then `GET key` answers `value`, whatever the store held.
pub proof fn law_get_answers_last_set(m: StoreView, set_cmd: Seq<Seq<char>>, get_cmd: Seq<Seq<char>>)
    requires
        set_cmd.len() == 3,
        get_cmd.len() == 2,
        get_cmd[1] == set_cmd[1],
    ensures
        run_command(m, set_cmd, "set"@).1 == Outcome::Stored,
        run_command(run_command(m, set_cmd, "set"@).0, get_cmd, "get"@).1 == Outcome::Found(
            set_cmd[2],
        ),
{
    reveal_strlit("set");
    reveal_strlit("get");
    reveal_strlit("ping");
    reveal_strlit("echo");
    assert("set"@[0] != "ping"@[0] && "set"@[0] != "echo"@[0] && "set"@[0] != "get"@[0]);
    assert("get"@[0] != "ping"@[0] && "get"@[0] != "echo"@[0]);
}

/// `GET` of a key that holds nothing answers the null reply.
pub proof fn law_get_missing_is_null(m: StoreView, cmd: Seq<Seq<char>>)
    requires
        cmd.len() == 2,
        !m.contains_key(cmd[1]),
    ensures
        run_command(m, cmd, "get"@).1 == Outcome::Missing,
{
    reveal_strlit("get");
    reveal_strlit("ping");
    reveal_strlit("echo");
    assert("get"@[0] != "ping"@[0] && "get"@[0] != "echo"@[0]);
}

/// `PING` answers `PONG`, whatever follows it.
pub proof fn law_ping_answers_pong(m: StoreView, cmd: Seq<Seq<char>>)
    ensures
        run_command(m, cmd, "ping"@) == (m, Outcome::Pong),
{
}


/// Two replies that agree up to the name of the command they quote: equal,
/// or both the refusal of an unknown command, or both a syntax error.
pub open spec fn same_reply_up_to_name(a: Outcome, b: Outcome) -> bool {
    match (a, b) {
        (Outcome::NotAvailable(_), Outcome::NotAvailable(_)) => true,
        (Outcome::SyntaxError(_), Outcome::SyntaxError(_)) => true,
        _ => a == b,
    }
}

/// Command names are read whatever their case: a command whose name is
/// written in ASCII upper case does to the store what the same command
/// written otherwise does, and gets the same reply, up to the name that an
/// error quotes.
pub proof fn law_command_names_ignore_case(m: StoreView, cmd: Seq<Seq<char>>, upper: Seq<Seq<char>>)
    requires
        well_formed_command(cmd, ascii_lower(cmd[0])),
        upper.len() == cmd.len(),
        upper[0] == ascii_upper(cmd[0]),
        forall|i: int| 1 <= i < cmd.len() ==> upper[i] == cmd[i],
    ensures
        ascii_lower(upper[0]) == ascii_lower(cmd[0]),
        run_command(m, upper, ascii_lower(upper[0])).0 == run_command(m, cmd, ascii_lower(cmd[0])).0,
        same_reply_up_to_name(
            run_command(m, upper, ascii_lower(upper[0])).1,
            run_command(m, cmd, ascii_lower(cmd[0])).1,
        ),
{
    lemma_ascii_lower_of_upper(cmd[0]);
    if cmd.len() >= 2 {
        assert(upper[1] == cmd[1]);
    }
    if cmd.len() >= 3 {
        assert(upper[2] == cmd[2]);
    }
}


/// A store that starts empty stays finite: no command makes it infinite, so
/// `law_write_size` applies to every store that commands build.
pub proof fn law_commands_keep_store_finite(m: StoreView, cmd: Seq<Seq<char>>, name: Seq<char>)
    requires
        m.dom().finite(),
    ensures
        run_command(m, cmd, name).0.dom().finite(),
{
}


/// The four command names are different words.
proof fn lemma_command_names_differ()
    ensures
        "ping"@ != "echo"@,
        "ping"@ != "get"@,
        "ping"@ != "set"@,
        "echo"@ != "get"@,
        "echo"@ != "set"@,
        "get"@ != "set"@,
{
    reveal_strlit("ping");
    reveal_strlit("echo");
    reveal_strlit("get");
    reveal_strlit("set");
    assert("ping"@[0] == 'p' && "echo"@[0] == 'e' && "get"@[0] == 'g' && "set"@[0] == 's');
}

/// `ECHO message` answers the message exactly as it was given, and leaves the
/// store as it was.
pub proof fn law_echo_answers_its_argument(m: StoreView, cmd: Seq<Seq<char>>)
    requires
        cmd.len() >= 2,
    ensures
        run_command(m, cmd, "echo"@).0 == m,
        run_command(m, cmd, "echo"@).1 == Outcome::Echo(cmd[1]),
        forall|r: StorageResult<RESP>|
            answers(r, run_command(m, cmd, "echo"@).1) ==> (r matches Ok(RESP::BulkString(s))
                && s@ == cmd[1]),
{
    lemma_command_names_differ();
}

/// A command whose name is none of `ping`, `echo`, `get`, `set` is refused as
/// not available, quoting its name as given, and the store is left as it was.
pub proof fn law_unknown_command_refused(m: StoreView, cmd: Seq<Seq<char>>, name: Seq<char>)
    requires
        cmd.len() >= 1,
        name != "ping"@,
        name != "echo"@,
        name != "get"@,
        name != "set"@,
    ensures
        run_command(m, cmd, name) == (m, Outcome::NotAvailable(cmd[0])),
        forall|r: StorageResult<RESP>|
            answers(r, run_command(m, cmd, name).1) ==> (r matches Err(
                StorageError::CommandNotAvailable(c),
            ) && c@ == cmd[0]),
{
}

/// `SET` answers `OK` only when it has stored the value under the key: then a
/// read of the key gives the value, and every other key is as it was. With
/// other than a key and a value it stores nothing, and is a syntax error that
/// quotes the whole command.
pub proof fn law_set_answers_ok_only_when_it_stores(m: StoreView, cmd: Seq<Seq<char>>)
    ensures
        run_command(m, cmd, "set"@).1 == Outcome::Stored ==> {
            &&& cmd.len() == 3
            &&& value_of(run_command(m, cmd, "set"@).0, cmd[1]) == Some(cmd[2])
            &&& forall|k: Seq<char>|
                k != cmd[1] ==> value_of(run_command(m, cmd, "set"@).0, k) == value_of(m, k)
        },
        cmd.len() == 3 ==> run_command(m, cmd, "set"@).1 == Outcome::Stored,
        cmd.len() != 3 ==> run_command(m, cmd, "set"@) == (
            m,
            Outcome::SyntaxError(joined(cmd, " "@)),
        ),
{
    lemma_command_names_differ();
}

/// `GET key` answers the value of the key, or the null reply when it holds
/// none, and leaves the store as it was; with other than one key it is a
/// syntax error that quotes the whole command.
pub proof fn law_get_answers_the_value(m: StoreView, cmd: Seq<Seq<char>>)
    ensures
        run_command(m, cmd, "get"@).0 == m,
        cmd.len() == 2 && m.contains_key(cmd[1]) ==> run_command(m, cmd, "get"@).1
            == Outcome::Found(m[cmd[1]].0),
        cmd.len() == 2 && !m.contains_key(cmd[1]) ==> run_command(m, cmd, "get"@).1
            == Outcome::Missing,
        cmd.len() != 2 ==> run_command(m, cmd, "get"@).1 == Outcome::SyntaxError(
            joined(cmd, " "@),
        ),
{
    lemma_command_names_differ();
}

} // verus!
