use std::collections::BTreeMap;

use arma::cmdline::{read_bootargs, run, write_bootargs, Action, TreeEdit};
use arma::fs_ext::temp_name;

/// The properties of `/chosen`, where there is one.
type Chosen = Option<BTreeMap<String, String>>;

fn bootargs(chosen: &Chosen) -> Option<Option<&str>> {
    chosen.as_ref().and_then(|c| c.get("bootargs")).map(|s| Some(s.as_str()))
}

/// Reads the command line, or makes the changes that rewrite it.
fn cmdline(chosen: &mut Chosen, new: Option<&str>) -> String {
    match run(new, chosen.is_some(), bootargs(chosen)) {
        Action::Print(text) => text,
        Action::Rewrite(edits) => {
            for edit in edits {
                match edit {
                    TreeEdit::AddChosen => *chosen = Some(BTreeMap::new()),
                    TreeEdit::SetBootargs(text) => {
                        chosen.as_mut().unwrap().insert("bootargs".to_string(), text);
                    }
                }
            }
            String::new()
        }
    }
}

#[test]
fn read_then_rewrite_bootargs() {
    let mut base: Chosen = Some(BTreeMap::new());
    base.as_mut().unwrap().insert("bootargs".to_string(), "console=ttyS0".to_string());
    base.as_mut().unwrap().insert("stdout-path".to_string(), "/serial".to_string());
    assert_eq!(cmdline(&mut base, None), "console=ttyS0");

    // Rewrite it, then read it back verbatim.
    let new = "root=/dev/vda1 ro quiet";
    let write_out = cmdline(&mut base, Some(new));
    assert!(write_out.is_empty(), "write prints nothing: {write_out:?}");
    assert_eq!(cmdline(&mut base, None), new);
    // Nothing else changed.
    assert_eq!(base.unwrap()["stdout-path"], "/serial");
}

// An empty command line is representable (clears bootargs).
#[test]
fn rewrite_to_empty() {
    let mut base: Chosen = Some(BTreeMap::new());
    base.as_mut().unwrap().insert("bootargs".to_string(), "console=ttyS0".to_string());
    cmdline(&mut base, Some(""));
    assert_eq!(cmdline(&mut base, None), "");
}

#[test]
fn chosen_is_created_if_absent() {
    let mut base: Chosen = None;
    assert_eq!(cmdline(&mut base, None), "");
    cmdline(&mut base, Some("quiet"));
    assert_eq!(cmdline(&mut base, None), "quiet");
    let edits = write_bootargs(false, "quiet");
    assert_eq!(edits.len(), 2);
    assert!(matches!(edits[0], TreeEdit::AddChosen));
    assert!(matches!(&edits[1], TreeEdit::SetBootargs(s) if s == "quiet"));
    assert_eq!(write_bootargs(true, "quiet").len(), 1);
}

#[test]
fn missing_or_undecodable_bootargs_read_as_empty() {
    assert_eq!(read_bootargs(None), "");
    assert_eq!(read_bootargs(Some(None)), "");
    assert_eq!(read_bootargs(Some(Some("a b"))), "a b");
}

#[test]
fn temp_file_names() {
    assert_eq!(temp_name(Some("base.dtb")), ".base.dtb.arma.tmp");
    assert_eq!(temp_name(None), ".out.arma.tmp");
    assert_eq!(temp_name(Some("")), "..arma.tmp");
    assert_ne!(temp_name(Some("a")), temp_name(Some("b")));
}
