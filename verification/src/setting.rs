//! Settings store: where a settings file lives and how a loaded record is
//! adopted.  Reading and writing the file, and rendering the record as
//! human-readable text, belong to the host; the store decides the path,
//! validates what was parsed, and keeps the in-memory record untouched — at
//! its default on first run — whenever the load fails.

use vstd::prelude::*;
use crate::save::{SaveConfig, join_spec, join_path};

verus! {

/// Notification: the persisted settings record (the slot table among them)
/// has been mutated and should be flushed to disk.
#[derive(Debug)]
pub struct GameSettingChanged;

/// Notification: the initial settings load completed; consumers may react,
/// for instance to restore UI state.
#[derive(Debug)]
pub struct GameSettingLoaded;

/// The default file name of the save system's own settings record.
pub open spec fn save_setting_conf_spec() -> Seq<u8> {
    seq![
        115u8, 97u8, 118u8, 101u8, 95u8, 115u8, 101u8, 116u8, 116u8, 105u8, 110u8, 103u8, 46u8,
        99u8, 111u8, 110u8, 102u8,
    ]
}

/// The default file name of the save system's own settings record,
/// `save_setting.conf`.
pub fn save_setting_conf() -> (r: Vec<u8>)
    ensures
        r@ == save_setting_conf_spec(),
{
    let r: Vec<u8> = vec![
        115u8, 97u8, 118u8, 101u8, 95u8, 115u8, 101u8, 116u8, 116u8, 105u8, 110u8, 103u8, 46u8,
        99u8, 111u8, 110u8, 102u8,
    ];
    proof {
        assert(r@ =~= save_setting_conf_spec());
    }
    r
}

/// Where a settings file named `conf` lives, given the platform's local data
/// directory when one is known: under that directory, or as the bare file
/// name otherwise (the fallback for platforms without a discoverable data
/// directory).
pub fn config_path_with(base: Option<Vec<u8>>, conf: &Vec<u8>) -> (r: Vec<u8>)
    ensures
        base is Some ==> r@ == join_spec(base->0@, conf@),
        base is None ==> r@ == conf@,
{
    match base {
        Some(b) => join_path(&b, conf),
        None => vstd::slice::slice_to_vec(conf.as_slice()),
    }
}

/// Relies on `dirs::data_local_dir`: the platform's per-user local data
/// directory, when the platform reports one with a unicode path.  The answer
/// depends on the environment, so nothing is promised of it.
#[verifier::external_body]
fn local_data_dir() -> (r: Option<Vec<u8>>) {
    dirs::data_local_dir().and_then(|p| p.into_os_string().into_string().ok()).map(
        |s| s.into_bytes(),
    )
}

/// The platform-resolved path of a settings file named `conf`: the file name
/// under the local data directory, or the bare file name where the platform
/// reports none.
pub fn config_path(conf: &Vec<u8>) -> (r: Vec<u8>)
    ensures
        r@ == conf@ || (exists|base: Seq<u8>| r@ == #[trigger] join_spec(base, conf@)),
{
    config_path_with(local_data_dir(), conf)
}

/// Adopts the outcome of the startup settings load: a successfully parsed
/// and validated record replaces the in-memory one and the completed load is
/// announced; any failure — missing file, parse error, invalid table — is
/// passed in as `None` and leaves the record exactly as it was, at its
/// default on a first run.  A failed load is reported by the host and is
/// never fatal.
pub fn apply_setting_load(
    target: &mut SaveConfig,
    parsed: Option<SaveConfig>,
) -> (r: Option<GameSettingLoaded>)
    requires
        parsed is Some ==> parsed->0.wf(),
    ensures
        parsed is Some ==> *final(target) == parsed->0 && r is Some,
        parsed is None ==> *final(target) == *old(target) && r is None,
{
    match parsed {
        Some(c) => {
            *target = c;
            Some(GameSettingLoaded)
        },
        None => None,
    }
}

} // verus!
