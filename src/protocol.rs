use vstd::prelude::*;

use crate::text::{compare_text, push_char};

verus! {

/// The line the sidecar prints once the output of one command is complete.
pub const READY_LINE: &'static str = "{ready}";

/// The flag lines of a bulk metadata read, up to the target folder.
pub const READ_FLAGS: &'static str = "\n-FileOrder8\n-fast2\n-FileName\n-Artist\n-PageName\n-ImageDescription\n-ImageSize\n-UserComment\n-json\n-ext\njpg\n-ext\njpeg\n-ext\npng\n-ext\ntga\n-ext\ntiff\n-ext\nwebp\n-ext\ngif\n";

/// The flag lines that start every write: overwrite the file in place, ignore minor errors.
pub const WRITE_FLAGS: &'static str = "-overwrite_original\n-m\n";

/// The line that ends a command block and makes the sidecar run it.
pub const EXECUTE_LINE: &'static str = "\n-execute\n";

/// Leaves the sidecar's stay-open mode, which ends the process.
pub const STOP_COMMAND: &'static str = "-stay_open\nFalse\n";

/// The command block that reads the metadata of every supported image directly in `path`.
pub fn get_folder_data(path: &str) -> (r: String)
    ensures
        r@ == READ_FLAGS@ + path@ + EXECUTE_LINE@,
{
    let mut c = String::from_str(READ_FLAGS);
    c.append(path);
    c.append(EXECUTE_LINE);
    c
}

/// The command block that writes `value` into the attribute `attribute` of the file `path`.
fn write_command(attribute: &str, value: &str, path: &str) -> (r: String)
    ensures
        r@ == WRITE_FLAGS@ + attribute@ + value@ + seq!['\n'] + path@ + EXECUTE_LINE@,
{
    let mut c = String::from_str(WRITE_FLAGS);
    c.append(attribute);
    c.append(value);
    push_char(&mut c, '\n');
    c.append(path);
    c.append(EXECUTE_LINE);
    c
}

/// Writes the notes of `path`; `notes` must already have its quotes escaped.
pub fn set_notes(path: &str, notes: &str) -> (r: String)
    ensures
        r@ == WRITE_FLAGS@ + "-UserComment="@ + (seq!['"'] + notes@ + seq!['"']) + seq!['\n'] + path@
            + EXECUTE_LINE@,
{
    let mut v = String::new();
    push_char(&mut v, '"');
    v.append(notes);
    push_char(&mut v, '"');
    write_command("-UserComment=", v.as_str(), path)
}

/// Writes the tag list of `path`.
pub fn set_tags(path: &str, list: &str) -> (r: String)
    ensures
        r@ == WRITE_FLAGS@ + "-ImageDescription="@ + list@ + seq!['\n'] + path@ + EXECUTE_LINE@,
{
    write_command("-ImageDescription=", list, path)
}

/// Writes the source link list of `path`.
pub fn set_link(path: &str, list: &str) -> (r: String)
    ensures
        r@ == WRITE_FLAGS@ + "-PageName="@ + list@ + seq!['\n'] + path@ + EXECUTE_LINE@,
{
    write_command("-PageName=", list, path)
}

/// Writes the artist list of `path`.
pub fn set_artist(path: &str, list: &str) -> (r: String)
    ensures
        r@ == WRITE_FLAGS@ + "-Artist="@ + list@ + seq!['\n'] + path@ + EXECUTE_LINE@,
{
    write_command("-Artist=", list, path)
}

/// Gathers the sidecar's output lines into responses: everything printed
/// before a ready line is the response to one command.
pub struct ResponseReader {
    pub readout: String,
}

impl ResponseReader {
    /// A reader with nothing gathered.
    pub fn new() -> (r: ResponseReader)
        ensures
            r.readout@.len() == 0,
    {
        ResponseReader { readout: String::new() }
    }

    /// Takes one output line (without its line break). At a ready line it hands
    /// back the gathered response and starts a new one; any other line is
    /// gathered, followed by a line break.
    pub fn feed(&mut self, line: &str) -> (r: Option<String>)
        ensures
            line@ == READY_LINE@ ==> r is Some && r->Some_0@ == old(self).readout@
                && final(self).readout@.len() == 0,
            line@ != READY_LINE@ ==> r is None && final(self).readout@ == old(self).readout@
                + line@ + seq!['\n'],
    {
        if compare_text(line, READY_LINE) == 0 {
            let mut out = String::new();
            core::mem::swap(&mut out, &mut self.readout);
            Some(out)
        } else {
            self.readout.append(line);
            push_char(&mut self.readout, '\n');
            None
        }
    }
}

} // verus!
