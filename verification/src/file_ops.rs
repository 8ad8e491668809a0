use vstd::prelude::*;
use vstd::string::StringExecFns;

verus! {

enum FileState {
    Open,
    Closed,
}

/// The abstract state of a file stub: its name, its bytes, and whether it is
/// currently open.
#[verifier::ext_equal]
pub struct FileView {
    pub name: Seq<char>,
    pub data: Seq<u8>,
    pub open: bool,
}

/// An in-memory stand-in for a file: a name, a byte buffer, and an
/// open/closed state that gates reading.
pub struct File {
    name: String,
    data: Vec<u8>,
    state: FileState,
}

impl View for File {
    type V = FileView;

    closed spec fn view(&self) -> FileView {
        FileView { name: self.name@, data: self.data@, open: self.state is Open }
    }
}

impl File {
    /// Creates a closed, empty file with the given name.
    pub fn new(name: &str) -> (r: File)
        ensures
            r@ == (FileView { name: name@, data: Seq::empty(), open: false }),
    {
        File { name: String::from_str(name), data: Vec::new(), state: FileState::Closed }
    }

    /// Creates a closed file with the given name and a copy of the bytes.
    pub fn new_with_data(name: &str, data: &Vec<u8>) -> (r: File)
        ensures
            r@ == (FileView { name: name@, data: data@, open: false }),
    {
        let mut file = File::new(name);
        file.data = vstd::slice::slice_to_vec(data.as_slice());
        file
    }

    /// Opens the file for reading; this cannot fail.
    pub fn open(&mut self) -> (r: Result<(), String>)
        ensures
            r == Ok::<(), String>(()),
            final(self)@ == (FileView { open: true, ..old(self)@ }),
    {
        self.state = FileState::Open;
        Ok(())
    }

    /// Closes the file; this cannot fail.
    pub fn close(&mut self) -> (r: Result<(), String>)
        ensures
            r == Ok::<(), String>(()),
            final(self)@ == (FileView { open: false, ..old(self)@ }),
    {
        self.state = FileState::Closed;
        Ok(())
    }

    /// Appends the file's bytes to the buffer. Fails on a file that is not
    /// open, and on an open file that holds no bytes; the buffer is left
    /// untouched in both cases.
    pub fn read(&self, buf: &mut Vec<u8>) -> (r: Result<usize, String>)
        ensures
            !self@.open ==> (r matches Err(e) && e@ == "File is not open"@)
                && final(buf)@ == old(buf)@,
            self@.open && self@.data.len() == 0 ==> (r matches Err(e) && e@ == "File is empty"@)
                && final(buf)@ == old(buf)@,
            self@.open && self@.data.len() > 0 ==> (r matches Ok(n) && n == self@.data.len())
                && final(buf)@ == old(buf)@ + self@.data,
    {
        match self.state {
            FileState::Closed => {
                return Err(String::from_str("File is not open"));
            },
            FileState::Open => {},
        }
        let read_length = self.data.len();
        if read_length == 0 {
            return Err(String::from_str("File is empty"));
        }
        buf.reserve(read_length);
        let mut i: usize = 0;
        while i < read_length
            invariant
                i <= read_length,
                read_length == self.data@.len(),
                buf@ == old(buf)@ + self.data@.take(i as int),
            decreases read_length - i,
        {
            buf.push(self.data[i]);
            proof {
                assert(self.data@.take(i as int).push(self.data@[i as int]) =~= self.data@.take(
                    i + 1,
                ));
            }
            i = i + 1;
        }
        proof {
            assert(self.data@.take(read_length as int) =~= self.data@);
        }
        Ok(read_length)
    }

    /// Opens the file, reads it into a scratch buffer, and closes it again.
    /// A file with no bytes makes the read step fail and is left open.
    pub fn test_file_open_close(&mut self) -> (r: Result<(), String>)
        ensures
            old(self)@.data.len() > 0 ==> r == Ok::<(), String>(()) && final(self)@ == (FileView {
                open: false,
                ..old(self)@
            }),
            old(self)@.data.len() == 0 ==> (r matches Err(e) && e@ == "File is empty"@)
                && final(self)@ == (FileView { open: true, ..old(self)@ }),
    {
        match self.open() {
            Ok(_) => {},
            Err(e) => {
                return Err(e);
            },
        }
        let mut scratch: Vec<u8> = Vec::new();
        match self.read(&mut scratch) {
            Ok(_) => {},
            Err(e) => {
                return Err(e);
            },
        }
        match self.close() {
            Ok(_) => {},
            Err(e) => {
                return Err(e);
            },
        }
        Ok(())
    }

    /// The number of bytes the file holds.
    pub fn len(&self) -> (r: usize)
        ensures
            r == self@.data.len(),
    {
        self.data.len()
    }

    /// The file's name.
    pub fn name(&self) -> (r: &str)
        ensures
            r@ == self@.name,
    {
        self.name.as_str()
    }
}

} // verus!
