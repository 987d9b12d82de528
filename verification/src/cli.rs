//! The command surface, as plain data.
//!
//! The argument parser in the unverified shell builds these values and
//! hands them to the engine; no parsing happens here.

use vstd::prelude::*;

verus! {

/// A parsed invocation.
#[derive(Debug, Clone)]
pub struct Cli {
    pub command: Command,
}

/// The four top-level commands.
#[derive(Debug, Clone)]
pub enum Command {
    Asset(AssetArgs),
    Snapshot(SnapshotArgs),
    Show(ShowArgs),
    History(HistoryArgs),
}

/// Arguments of `asset`.
#[derive(Debug, Clone)]
pub struct AssetArgs {
    pub subcommand: AssetSubcommand,
}

/// The asset subcommands.
#[derive(Debug, Clone)]
pub enum AssetSubcommand {
    Add(AssetAddArgs),
    Edit(AssetEditArgs),
    Remove(AssetRemoveArgs),
    List,
}

/// Arguments of `asset add`.
#[derive(Debug, Clone)]
pub struct AssetAddArgs {
    pub id: String,
    pub name: String,
    pub category: String,
    pub currency: String,
}

/// Arguments of `asset edit`: absent fields stay as they are.
#[derive(Debug, Clone)]
pub struct AssetEditArgs {
    pub id: String,
    pub name: Option<String>,
    pub category: Option<String>,
    pub currency: Option<String>,
}

/// Arguments of `asset remove`.
#[derive(Debug, Clone)]
pub struct AssetRemoveArgs {
    pub id: String,
}

/// Arguments of `snapshot`.
#[derive(Debug, Clone)]
pub struct SnapshotArgs {
    pub subcommand: SnapshotSubcommand,
}

/// The snapshot subcommands.
#[derive(Debug, Clone)]
pub enum SnapshotSubcommand {
    Add(SnapshotDateArg),
    Edit(SnapshotDateArg),
    List,
}

/// The date a snapshot command works on.
#[derive(Debug, Clone)]
pub struct SnapshotDateArg {
    pub date: String,
}

/// Arguments of `show`: a specific date (default: the latest snapshot) and
/// an optional category filter.
#[derive(Debug, Clone)]
pub struct ShowArgs {
    pub date: Option<String>,
    pub category: Option<String>,
}

/// Arguments of `history`: the range token (`1M`, `6M`, `1Y`, `5Y`, `ALL`).
#[derive(Debug, Clone)]
pub struct HistoryArgs {
    pub range: String,
}

} // verus!
