//! The command core: given the parsed command, the artifact bytes read
//! from disk (if any), and the captured live environment, decide exactly
//! what to write or print.  Reading the environment, opening files and
//! printing stay with the surrounding program; everything decided here is
//! verified.

use vstd::prelude::*;
use crate::codec::decode_spec;
use crate::codec::encode_spec;
use crate::reconcile::change_seq_of;
use crate::render::cmd_line;
use crate::render::lines_model;
use crate::render::render_cmd_script;
use crate::render::render_sh_script;
use crate::render::sh_line;
use crate::snapshot::canon_entries;
use crate::snapshot::seq_model;
use crate::snapshot::EnvEntry;
use crate::snapshot::SavedEnvironment;
use crate::SerenvError;

verus! {

/// What the invoked command asks the surrounding program to do.
#[derive(Debug)]
pub enum CliAction {
    /// Replace the artifact with these bytes.
    WriteArtifact(Vec<u8>),
    /// Print these lines to standard output, in order.
    PrintLines(Vec<String>),
}

/// The artifact bytes handed in, as a mathematical value.
pub open spec fn artifact_model(a: Option<&Vec<u8>>) -> Option<Seq<u8>> {
    match a {
        Some(b) => Some(b@),
        None => None,
    }
}

/// The lines that restoring against `saved_entries` must print for the
/// live environment captured as `live_vars`, in the `sh` dialect.
pub open spec fn sh_emit_ok(
    saved_entries: Seq<(Seq<u8>, Seq<u8>)>,
    live_vars: Seq<(Seq<u8>, Seq<u8>)>,
    lines: Seq<Seq<char>>,
) -> bool {
    let cs = change_seq_of(saved_entries, canon_entries(live_vars));
    lines.len() == cs.len() && forall|i: int| 0 <= i < cs.len() ==> lines[i] == sh_line(cs[i])
}

/// As `sh_emit_ok`, in the `cmd` dialect.
pub open spec fn cmd_emit_ok(
    saved_entries: Seq<(Seq<u8>, Seq<u8>)>,
    live_vars: Seq<(Seq<u8>, Seq<u8>)>,
    lines: Seq<Seq<char>>,
) -> bool {
    let cs = change_seq_of(saved_entries, canon_entries(live_vars));
    lines.len() == cs.len() && forall|i: int| 0 <= i < cs.len() ==> lines[i] == cmd_line(cs[i])
}

/// The whole outcome of an emit command in the `sh` dialect: which error
/// comes on which input, and what is printed on success.
pub open spec fn sh_emit_contract(
    art: Option<Seq<u8>>,
    live_vars: Seq<(Seq<u8>, Seq<u8>)>,
    r: Result<Seq<Seq<char>>, SerenvError>,
) -> bool {
    match art {
        None => r == Err::<Seq<Seq<char>>, SerenvError>(SerenvError::NotFound),
        Some(bytes) => match decode_spec(bytes) {
            None => r == Err::<Seq<Seq<char>>, SerenvError>(SerenvError::DecodingError),
            Some(entries) => r is Ok && sh_emit_ok(entries, live_vars, r->Ok_0),
        },
    }
}

/// As `sh_emit_contract`, in the `cmd` dialect.
pub open spec fn cmd_emit_contract(
    art: Option<Seq<u8>>,
    live_vars: Seq<(Seq<u8>, Seq<u8>)>,
    r: Result<Seq<Seq<char>>, SerenvError>,
) -> bool {
    match art {
        None => r == Err::<Seq<Seq<char>>, SerenvError>(SerenvError::NotFound),
        Some(bytes) => match decode_spec(bytes) {
            None => r == Err::<Seq<Seq<char>>, SerenvError>(SerenvError::DecodingError),
            Some(entries) => r is Ok && cmd_emit_ok(entries, live_vars, r->Ok_0),
        },
    }
}

/// The `save` command.
pub struct SerenvSaveOptions {}

impl SerenvSaveOptions {
    /// Capture the live environment and serialize it: the returned bytes
    /// are the artifact to write.
    pub fn cli(self, live: Vec<EnvEntry>) -> (out: Vec<u8>)
        ensures
            out@ == encode_spec(canon_entries(seq_model(live@))),
    {
        let snap = SavedEnvironment::from_env(live);
        snap.encode()
    }
}

/// The `emit-sh` command.
pub struct SerenvEmitShOptions {}

impl SerenvEmitShOptions {
    /// Decode the artifact, reconcile it against the captured live
    /// environment, and render the changes as `sh` statements.
    pub fn cli(self, artifact: Option<&Vec<u8>>, live: Vec<EnvEntry>) -> (r: Result<
        Vec<String>,
        SerenvError,
    >)
        ensures
            match r {
                Ok(lines) => sh_emit_contract(
                    artifact_model(artifact),
                    seq_model(live@),
                    Ok(lines_model(lines@)),
                ),
                Err(e) => sh_emit_contract(artifact_model(artifact), seq_model(live@), Err(e)),
            },
    {
        match artifact {
            None => Err(SerenvError::NotFound),
            Some(bytes) => match SavedEnvironment::decode(bytes) {
                Err(e) => Err(e),
                Ok(saved) => {
                    let live_snap = SavedEnvironment::from_env(live);
                    let changes = saved.changes(&live_snap);
                    let lines = render_sh_script(&changes);
                    proof {
                        let cs = change_seq_of(
                            saved.entries_view(),
                            canon_entries(seq_model(live@)),
                        );
                        assert forall|i: int| 0 <= i < cs.len() implies lines_model(lines@)[i]
                            == sh_line(cs[i]) by {
                            assert(changes@.map_values(|c: crate::reconcile::EnvironmentChange| c@)[i]
                                == changes@[i]@);
                        }
                    }
                    Ok(lines)
                },
            },
        }
    }
}

/// The `emit-cmd` command.
pub struct SerenvEmitCmdOptions {}

impl SerenvEmitCmdOptions {
    /// Decode the artifact, reconcile it against the captured live
    /// environment, and render the changes as `cmd` statements.
    pub fn cli(self, artifact: Option<&Vec<u8>>, live: Vec<EnvEntry>) -> (r: Result<
        Vec<String>,
        SerenvError,
    >)
        ensures
            match r {
                Ok(lines) => cmd_emit_contract(
                    artifact_model(artifact),
                    seq_model(live@),
                    Ok(lines_model(lines@)),
                ),
                Err(e) => cmd_emit_contract(artifact_model(artifact), seq_model(live@), Err(e)),
            },
    {
        match artifact {
            None => Err(SerenvError::NotFound),
            Some(bytes) => match SavedEnvironment::decode(bytes) {
                Err(e) => Err(e),
                Ok(saved) => {
                    let live_snap = SavedEnvironment::from_env(live);
                    let changes = saved.changes(&live_snap);
                    let lines = render_cmd_script(&changes);
                    proof {
                        let cs = change_seq_of(
                            saved.entries_view(),
                            canon_entries(seq_model(live@)),
                        );
                        assert forall|i: int| 0 <= i < cs.len() implies lines_model(lines@)[i]
                            == cmd_line(cs[i]) by {
                            assert(changes@.map_values(|c: crate::reconcile::EnvironmentChange| c@)[i]
                                == changes@[i]@);
                        }
                    }
                    Ok(lines)
                },
            },
        }
    }
}

/// The parsed command line: which command was invoked.
pub enum SerenvCli {
    EmitCmd(SerenvEmitCmdOptions),
    EmitSh(SerenvEmitShOptions),
    Save(SerenvSaveOptions),
}

impl SerenvCli {
    /// Decide what the invoked command does, given the artifact read from
    /// disk (if it exists) and the captured live environment.
    pub fn cli(self, artifact: Option<&Vec<u8>>, live: Vec<EnvEntry>) -> (r: Result<
        CliAction,
        SerenvError,
    >)
        ensures
            match self {
                SerenvCli::Save(_) => r is Ok && r->Ok_0 is WriteArtifact
                    && r->Ok_0->WriteArtifact_0@ == encode_spec(canon_entries(seq_model(live@))),
                SerenvCli::EmitSh(_) => match r {
                    Ok(action) => action is PrintLines && sh_emit_contract(
                        artifact_model(artifact),
                        seq_model(live@),
                        Ok(lines_model(action->PrintLines_0@)),
                    ),
                    Err(e) => sh_emit_contract(artifact_model(artifact), seq_model(live@), Err(e)),
                },
                SerenvCli::EmitCmd(_) => match r {
                    Ok(action) => action is PrintLines && cmd_emit_contract(
                        artifact_model(artifact),
                        seq_model(live@),
                        Ok(lines_model(action->PrintLines_0@)),
                    ),
                    Err(e) => cmd_emit_contract(artifact_model(artifact), seq_model(live@), Err(e)),
                },
            },
    {
        match self {
            SerenvCli::EmitCmd(opts) => match opts.cli(artifact, live) {
                Ok(lines) => Ok(CliAction::PrintLines(lines)),
                Err(e) => Err(e),
            },
            SerenvCli::EmitSh(opts) => match opts.cli(artifact, live) {
                Ok(lines) => Ok(CliAction::PrintLines(lines)),
                Err(e) => Err(e),
            },
            SerenvCli::Save(opts) => Ok(CliAction::WriteArtifact(opts.cli(live))),
        }
    }
}

} // verus!
