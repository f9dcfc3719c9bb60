//! Whether an existing ledger can be used, and what has to be done to it first.

use vstd::prelude::*;
use vstd::string::StringExecFns;
use crate::ledger::schema;
use crate::text;

verus! {

/// What an existing ledger of some version needs.
#[derive(Clone, Debug)]
pub enum VersionStep {
    /// The statements and the version to note, in one transaction; then ask
    /// again.
    Migrate { ddl: &'static str, note: &'static str, to: &'static str },
    /// Nothing.
    Current,
    /// It cannot be used; the message says why.
    Unsupported { message: String },
}

/// What a [`VersionStep`] says.
pub enum Step {
    Migrate { ddl: Seq<char>, note: Seq<char>, to: Seq<char> },
    Current,
    Unsupported { message: Seq<char> },
}

impl View for VersionStep {
    type V = Step;

    open spec fn view(&self) -> Step {
        match self {
            VersionStep::Migrate { ddl, note, to } => Step::Migrate {
                ddl: ddl@,
                note: note@,
                to: to@,
            },
            VersionStep::Current => Step::Current,
            VersionStep::Unsupported { message } => Step::Unsupported { message: message@ },
        }
    }
}

/// What a ledger of version `v` needs. Older ones are brought forward version by
/// version; an unknown version is refused.
pub open spec fn step_of(v: Seq<char>) -> Step {
    if v == "1"@ {
        Step::Migrate {
            ddl: schema::MIGRATE_V1_TO_V2@,
            note: "UPDATE meta SET v='2' WHERE k='schema_version'"@,
            to: "2"@,
        }
    } else if v == "2"@ {
        Step::Migrate {
            ddl: schema::MIGRATE_V2_TO_V3@,
            note: "UPDATE meta SET v='3' WHERE k='schema_version'"@,
            to: "3"@,
        }
    } else if v == schema::SCHEMA_VERSION@ {
        Step::Current
    } else {
        Step::Unsupported { message: "unsupported schema version "@ + v }
    }
}

/// [`step_of`].
pub fn version_step(v: &str) -> (r: VersionStep)
    ensures
        r@ == step_of(v@),
{
    if text::same_text(v, "1") {
        VersionStep::Migrate {
            ddl: schema::MIGRATE_V1_TO_V2,
            note: "UPDATE meta SET v='2' WHERE k='schema_version'",
            to: "2",
        }
    } else if text::same_text(v, "2") {
        VersionStep::Migrate {
            ddl: schema::MIGRATE_V2_TO_V3,
            note: "UPDATE meta SET v='3' WHERE k='schema_version'",
            to: "3",
        }
    } else if text::same_text(v, schema::SCHEMA_VERSION) {
        VersionStep::Current
    } else {
        VersionStep::Unsupported { message: text::joined("unsupported schema version ", v) }
    }
}

/// What is noted in a new ledger: its version and its chain.
pub fn initial_meta(chain_id: u64) -> (r: (String, String))
    ensures
        r.0@ == schema::SCHEMA_VERSION@,
        r.1@ == text::decimal(chain_id as nat),
{
    (schema::SCHEMA_VERSION.to_owned(), text::decimal_text(chain_id as u128))
}

/// Why a ledger of another chain is refused.
pub open spec fn mismatch(stored: Seq<char>, chain_id: u64) -> Seq<char> {
    "chain-id mismatch: existing ledger is for chain "@ + stored
        + ", but configured chain is "@ + text::decimal(chain_id as nat)
}

/// Whether an existing ledger is of the configured chain.
pub fn check_chain(stored: &str, chain_id: u64) -> (r: Result<(), String>)
    ensures
        match r {
            Ok(_) => stored@ == text::decimal(chain_id as nat),
            Err(m) => stored@ != text::decimal(chain_id as nat) && m@ == mismatch(
                stored@,
                chain_id,
            ),
        },
{
    let configured = text::decimal_text(chain_id as u128);
    if text::same_text(stored, configured.as_str()) {
        Ok(())
    } else {
        let mut m = "chain-id mismatch: existing ledger is for chain ".to_owned();
        m.append(stored);
        m.append(", but configured chain is ");
        m.append(configured.as_str());
        Err(m)
    }
}

/// What was found out, or done, while opening a ledger.
#[derive(Clone, Debug)]
pub enum OpenEvent {
    /// Whether the file has a table of single values.
    Found(bool),
    /// The tables were created.
    Created,
    /// The stored version.
    Version(String),
    /// The ledger was brought forward by a version.
    Migrated,
    /// The chain that is stored.
    Chain(String),
}

/// What to do to open a ledger.
#[derive(Clone, Debug)]
pub enum OpenAction {
    /// Look for the table of single values.
    Find,
    /// Create the tables, and note the version and the chain.
    Create { version: String, chain: String },
    /// Read the stored version.
    ReadVersion,
    /// Run the statements and note the version, in one transaction.
    Migrate { ddl: &'static str, note: &'static str },
    /// Read the stored chain.
    ReadChain,
    /// It is open.
    Finish,
    /// It cannot be used; the message says why.
    Refuse { message: String },
}

/// What an [`OpenEvent`] says.
pub enum Finding {
    Found(bool),
    Created,
    Version(Seq<char>),
    Migrated,
    Chain(Seq<char>),
}

/// What an [`OpenAction`] says.
pub enum Task {
    Find,
    Create { version: Seq<char>, chain: Seq<char> },
    ReadVersion,
    Migrate { ddl: Seq<char>, note: Seq<char> },
    ReadChain,
    Finish,
    Refuse { message: Seq<char> },
}

impl View for OpenEvent {
    type V = Finding;

    open spec fn view(&self) -> Finding {
        match self {
            OpenEvent::Found(yes) => Finding::Found(*yes),
            OpenEvent::Created => Finding::Created,
            OpenEvent::Version(v) => Finding::Version(v@),
            OpenEvent::Migrated => Finding::Migrated,
            OpenEvent::Chain(c) => Finding::Chain(c@),
        }
    }
}

impl View for OpenAction {
    type V = Task;

    open spec fn view(&self) -> Task {
        match self {
            OpenAction::Find => Task::Find,
            OpenAction::Create { version, chain } => Task::Create {
                version: version@,
                chain: chain@,
            },
            OpenAction::ReadVersion => Task::ReadVersion,
            OpenAction::Migrate { ddl, note } => Task::Migrate { ddl: ddl@, note: note@ },
            OpenAction::ReadChain => Task::ReadChain,
            OpenAction::Finish => Task::Finish,
            OpenAction::Refuse { message } => Task::Refuse { message: message@ },
        }
    }
}

/// What to do next on opening a ledger for a chain, after a task and what came of
/// it: a file without tables gets them; another is brought forward until it is
/// current, and only then is its chain compared. What does not belong to the task
/// leaves it as it is.
pub open spec fn task_after(task: Task, f: Finding, chain_id: u64) -> Task {
    match (task, f) {
        (Task::Find, Finding::Found(yes)) => if yes {
            Task::ReadVersion
        } else {
            Task::Create {
                version: schema::SCHEMA_VERSION@,
                chain: text::decimal(chain_id as nat),
            }
        },
        (Task::Create { .. }, Finding::Created) => Task::Finish,
        (Task::ReadVersion, Finding::Version(v)) => match step_of(v) {
            Step::Migrate { ddl, note, .. } => Task::Migrate { ddl, note },
            Step::Current => Task::ReadChain,
            Step::Unsupported { message } => Task::Refuse { message },
        },
        (Task::Migrate { .. }, Finding::Migrated) => Task::ReadVersion,
        (Task::ReadChain, Finding::Chain(stored)) => if stored == text::decimal(chain_id as nat) {
            Task::Finish
        } else {
            Task::Refuse { message: mismatch(stored, chain_id) }
        },
        _ => task,
    }
}

/// [`task_after`]. Opening begins with [`OpenAction::Find`].
pub fn opening_step(action: OpenAction, event: OpenEvent, chain_id: u64) -> (r: OpenAction)
    ensures
        r@ == task_after(action@, event@, chain_id),
{
    match (action, event) {
        (OpenAction::Find, OpenEvent::Found(yes)) => if yes {
            OpenAction::ReadVersion
        } else {
            let (version, chain) = initial_meta(chain_id);
            OpenAction::Create { version, chain }
        },
        (OpenAction::Create { .. }, OpenEvent::Created) => OpenAction::Finish,
        (OpenAction::ReadVersion, OpenEvent::Version(v)) => match version_step(v.as_str()) {
            VersionStep::Migrate { ddl, note, .. } => OpenAction::Migrate { ddl, note },
            VersionStep::Current => OpenAction::ReadChain,
            VersionStep::Unsupported { message } => OpenAction::Refuse { message },
        },
        (OpenAction::Migrate { .. }, OpenEvent::Migrated) => OpenAction::ReadVersion,
        (OpenAction::ReadChain, OpenEvent::Chain(stored)) => match check_chain(
            stored.as_str(),
            chain_id,
        ) {
            Ok(()) => OpenAction::Finish,
            Err(message) => OpenAction::Refuse { message },
        },
        (action, _) => action,
    }
}

/// What a file holds, as far as opening it goes: nothing yet, or a ledger of a
/// version and a chain.
pub enum FileState {
    New,
    Ledger { version: Seq<char>, chain: Seq<char> },
}

impl FileState {
    /// What comes of a task.
    pub open spec fn finding(self, task: Task) -> Finding {
        match task {
            Task::Find => Finding::Found(self is Ledger),
            Task::Create { .. } => Finding::Created,
            Task::ReadVersion => Finding::Version(self->version),
            Task::Migrate { .. } => Finding::Migrated,
            _ => Finding::Chain(self->chain),
        }
    }

    /// What the file holds once a task is done. A migration notes the version
    /// after the stored one.
    pub open spec fn after(self, task: Task) -> FileState {
        match task {
            Task::Create { version, chain } => FileState::Ledger { version, chain },
            Task::Migrate { .. } => match step_of(self->version) {
                Step::Migrate { to, .. } => FileState::Ledger { version: to, chain: self->chain },
                _ => self,
            },
            _ => self,
        }
    }
}

/// The task and the file after `n` tasks of opening it.
pub open spec fn opening(file: FileState, chain_id: u64, n: nat) -> (Task, FileState)
    decreases n,
{
    if n == 0 {
        (Task::Find, file)
    } else {
        let (task, f) = opening(file, chain_id, (n - 1) as nat);
        (task_after(task, f.finding(task), chain_id), f.after(task))
    }
}

/// What becomes of a file that is opened for a chain: a new one becomes a current
/// ledger of the chain; one of a known version becomes current, and is refused if it
/// is of another chain; one of an unknown version is refused as it is.
pub open spec fn opened(file: FileState, chain_id: u64) -> (Task, FileState) {
    let own = text::decimal(chain_id as nat);
    match file {
        FileState::New => (
            Task::Finish,
            FileState::Ledger { version: schema::SCHEMA_VERSION@, chain: own },
        ),
        FileState::Ledger { version, chain } => if version == "1"@ || version == "2"@ || version
            == "3"@ {
            (
                if chain == own {
                    Task::Finish
                } else {
                    Task::Refuse { message: mismatch(chain, chain_id) }
                },
                FileState::Ledger { version: schema::SCHEMA_VERSION@, chain },
            )
        } else {
            (Task::Refuse { message: "unsupported schema version "@ + version }, file)
        },
    }
}

/// Opening comes to its end after at most seven tasks: it succeeds exactly on a new
/// file and on a ledger of a known version and of the same chain, which is then
/// current; everything else is refused.
pub proof fn opening_ends(file: FileState, chain_id: u64)
    ensures
        opening(file, chain_id, 7) == opened(file, chain_id),
        opened(file, chain_id).0 == Task::Finish <==> (match file {
            FileState::New => true,
            FileState::Ledger { version, chain } => (version == "1"@ || version == "2"@ || version
                == "3"@) && chain == text::decimal(chain_id as nat),
        }),
{
    reveal_with_fuel(opening, 8);
    reveal_strlit("1");
    reveal_strlit("2");
    reveal_strlit("3");
    assert("1"@[0] != "2"@[0]);
    assert("1"@[0] != "3"@[0]);
    assert("2"@[0] != "3"@[0]);
    assert(schema::SCHEMA_VERSION@ == "3"@);
}

/// An opened ledger stays as it is when it is opened again for its chain, and is
/// refused for every other chain, unchanged.
pub proof fn an_opened_ledger_opens_again(file: FileState, chain_id: u64, other: u64)
    requires
        opened(file, chain_id).0 == Task::Finish,
    ensures
        ({
            let ledger = opened(file, chain_id).1;
            &&& opened(ledger, other).1 == ledger
            &&& opened(ledger, other).0 == Task::Finish <==> other == chain_id
        }),
{
    a_ledger_is_bound_to_its_chain(chain_id, other);
}

/// A ledger that can be brought forward is current after at most two steps.
pub proof fn migrations_end_at_the_current_version(v: Seq<char>)
    ensures
        step_of(v) matches Step::Migrate { to, .. } ==> step_of(to) == Step::Current || (step_of(
            to,
        ) matches Step::Migrate { to: next, .. } && step_of(next) == Step::Current),
        step_of(schema::SCHEMA_VERSION@) == Step::Current,
{
    reveal_strlit("1");
    reveal_strlit("2");
    reveal_strlit("3");
    assert("1"@[0] != "2"@[0]);
    assert("1"@[0] != "3"@[0]);
    assert("2"@[0] != "3"@[0]);
    assert(schema::SCHEMA_VERSION@ == "3"@);
}

/// A ledger made for one chain is accepted for that chain and for no other.
pub proof fn a_ledger_is_bound_to_its_chain(made_for: u64, configured: u64)
    ensures
        text::decimal(made_for as nat) == text::decimal(configured as nat) <==> made_for
            == configured,
{
    if text::decimal(made_for as nat) == text::decimal(configured as nat) {
        text::lemma_decimal_injective(made_for as nat, configured as nat);
    }
}

/// A ledger is brought forward by one version at a time: by the statements for its
/// version, after which the next version is noted.
pub proof fn each_version_leads_to_the_next(v: Seq<char>)
    ensures
        step_of(v) matches Step::Migrate { ddl, note, to } ==> {
            &&& note == "UPDATE meta SET v='"@ + to + "' WHERE k='schema_version'"@
            &&& (v == "1"@ && to == "2"@ && ddl == schema::MIGRATE_V1_TO_V2@) || (v == "2"@ && to
                == "3"@ && ddl == schema::MIGRATE_V2_TO_V3@)
        },
        step_of(v) == Step::Current <==> v == "3"@,
        step_of(v) is Unsupported <==> v != "1"@ && v != "2"@ && v != "3"@,
{
    reveal_strlit("1");
    reveal_strlit("2");
    reveal_strlit("3");
    assert("1"@[0] != "2"@[0]);
    assert("1"@[0] != "3"@[0]);
    assert("2"@[0] != "3"@[0]);
    reveal_strlit("UPDATE meta SET v='");
    reveal_strlit("' WHERE k='schema_version'");
    reveal_strlit("UPDATE meta SET v='2' WHERE k='schema_version'");
    reveal_strlit("UPDATE meta SET v='3' WHERE k='schema_version'");
    if let Step::Migrate { note, to, .. } = step_of(v) {
        assert(note =~= "UPDATE meta SET v='"@ + to + "' WHERE k='schema_version'"@);
    }
}

} // verus!
