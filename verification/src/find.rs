//! Finding files of a given type: by extension, or by the interpreter named in their
//! shebang line.
use vstd::prelude::*;

use crate::strs::{from_chars};

verus! {

/// A type of source file.
#[derive(Debug, Clone, Copy, PartialEq, Eq)]
pub enum FileType {
    /// C#
    CSharp,
    /// Go
    Go,
    /// HCL
    Hcl,
    /// Python
    Python,
    /// Rust
    Rust,
    /// TypeScript
    TypeScript,
}

/// The file extensions of a file type.
pub open spec fn extensions_of(ft: FileType) -> Seq<Seq<char>> {
    match ft {
        FileType::CSharp => seq!["cs"@, "csx"@],
        FileType::Go => seq!["go"@],
        FileType::Hcl => seq!["hcl"@, "tf"@],
        FileType::Python => seq!["py"@],
        FileType::Rust => seq!["rs"@],
        FileType::TypeScript => seq!["ts"@, "tsx"@],
    }
}

/// The interpreters that mark a file of a type without an extension, if any.
pub open spec fn interpreters_of(ft: FileType) -> Option<Seq<Seq<char>>> {
    match ft {
        FileType::Python => Some(seq!["python"@, "python3"@]),
        _ => None,
    }
}

/// The strings `v` as plain character sequences.
pub open spec fn texts(v: Seq<&str>) -> Seq<Seq<char>> {
    v.map_values(|s: &str| s@)
}

impl FileType {
    /// The file extensions of this file type.
    pub fn extensions(&self) -> (r: Vec<&'static str>)
        ensures
            texts(r@) == extensions_of(*self),
    {
        let mut v: Vec<&'static str> = Vec::new();
        match self {
            FileType::CSharp => {
                v.push("cs");
                v.push("csx");
            },
            FileType::Go => v.push("go"),
            FileType::Hcl => {
                v.push("hcl");
                v.push("tf");
            },
            FileType::Python => v.push("py"),
            FileType::Rust => v.push("rs"),
            FileType::TypeScript => {
                v.push("ts");
                v.push("tsx");
            },
        }
        proof {
            assert(texts(v@) =~= extensions_of(*self));
        }
        v
    }

    /// The interpreters that mark a file of this type without an extension, if any.
    pub fn interpreters(&self) -> (r: Option<Vec<&'static str>>)
        ensures
            match r {
                Some(v) => interpreters_of(*self) == Some(texts(v@)),
                None => interpreters_of(*self) is None,
            },
    {
        match self {
            FileType::Python => {
                let mut v: Vec<&'static str> = Vec::new();
                v.push("python");
                v.push("python3");
                proof {
                    assert(texts(v@) =~= seq!["python"@, "python3"@]);
                }
                Some(v)
            },
            _ => None,
        }
    }
}

/// Whether a file of type `ft` is kept, given its extension (if it has one) and the
/// interpreter its shebang line names (if any): by its extension if it has one, else by
/// the interpreter, for file types marked by interpreters.
pub open spec fn kept(ft: FileType, ext: Option<Seq<char>>, interpreter: Option<Seq<char>>) -> bool {
    match ext {
        Some(e) => extensions_of(ft).contains(e),
        None => match (interpreters_of(ft), interpreter) {
            (Some(list), Some(i)) => list.contains(i),
            _ => false,
        },
    }
}

/// Whether the characters of `a` and `b` are the same.
fn same_text(a: &str, b: &str) -> (r: bool)
    ensures
        r == (a@ == b@),
{
    let x = crate::strs::to_chars(a);
    let y = crate::strs::to_chars(b);
    if x.len() != y.len() {
        return false;
    }
    let n = x.len();
    let mut i: usize = 0;
    while i < n
        invariant
            i <= n,
            n == x@.len(),
            n == y@.len(),
            x@ == a@,
            y@ == b@,
            forall|k: int| 0 <= k < i ==> x@[k] == y@[k],
        decreases n - i,
    {
        if x[i] != y[i] {
            return false;
        }
        i = i + 1;
    }
    proof {
        assert(x@ =~= y@);
    }
    true
}

/// Whether `t` is one of `list`.
fn listed_text(list: &Vec<&'static str>, t: &str) -> (r: bool)
    ensures
        r == texts(list@).contains(t@),
{
    let n = list.len();
    let mut i: usize = 0;
    while i < n
        invariant
            i <= n,
            n == list@.len(),
            forall|k: int| 0 <= k < i ==> list@[k]@ != t@,
        decreases n - i,
    {
        if same_text(list[i], t) {
            proof {
                assert(texts(list@)[i as int] == t@);
            }
            return true;
        }
        i = i + 1;
    }
    proof {
        if texts(list@).contains(t@) {
            let k = choose|k: int| 0 <= k < texts(list@).len() && texts(list@)[k] == t@;
            assert(list@[k]@ == t@);
        }
    }
    false
}

/// Whether a file of type `ft` is kept (see [`kept`]), given its extension and the
/// interpreter its shebang line names.
pub fn keeps(ft: &FileType, ext: Option<&str>, interpreter: Option<&str>) -> (b: bool)
    ensures
        b == kept(
            *ft,
            match ext {
                Some(e) => Some(e@),
                None => None,
            },
            match interpreter {
                Some(i) => Some(i@),
                None => None,
            },
        ),
{
    match ext {
        Some(e) => listed_text(&ft.extensions(), e),
        None => match (ft.interpreters(), interpreter) {
            (Some(list), Some(i)) => listed_text(&list, i),
            _ => false,
        },
    }
}

/// The most bytes read before giving up on finding an interpreter.
pub const MAXIMUM_BYTES: usize = 128;

/// The state of the search for a shebang interpreter.
#[derive(Debug, Clone, PartialEq, Eq)]
pub struct InterpreterScan {
    /// The interpreter read so far.
    pub interpreter: Vec<u8>,
    /// Whether a space has been seen.
    pub seen_space: bool,
    /// How many bytes have been looked at.
    pub total: usize,
}

/// What the scan of the bytes `rest`, at position `i` of a chunk, makes of the state:
/// `#` first and `!` second in a chunk are skipped, anything else there, or a newline,
/// ends the chunk; a `/` starts the interpreter afresh; the first space starts it
/// afresh too, a second one ends the chunk; other bytes are added to it. Each byte
/// looked at is counted.
pub open spec fn scan_from(interpreter: Seq<u8>, seen_space: bool, total: int, i: int, rest: Seq<u8>) -> (Seq<u8>, bool, int)
    decreases rest.len(),
{
    if rest.len() == 0 {
        (interpreter, seen_space, total)
    } else {
        let c = rest[0];
        let t = total + 1;
        if (i == 0 && c == 0x23) || (i == 1 && c == 0x21) {
            scan_from(interpreter, seen_space, t, i + 1, rest.drop_first())
        } else if i == 0 || i == 1 || c == 0x0a {
            (interpreter, seen_space, t)
        } else if c == 0x2f {
            scan_from(Seq::empty(), seen_space, t, i + 1, rest.drop_first())
        } else if c == 0x20 && seen_space {
            (interpreter, seen_space, t)
        } else if c == 0x20 {
            scan_from(Seq::empty(), true, t, i + 1, rest.drop_first())
        } else {
            scan_from(interpreter.push(c), seen_space, t, i + 1, rest.drop_first())
        }
    }
}

/// The interpreter as text: each byte taken as the character of that code.
pub open spec fn bytes_as_chars(b: Seq<u8>) -> Seq<char> {
    b.map_values(|x: u8| x as char)
}

impl InterpreterScan {
    /// A scan that has looked at nothing yet.
    pub fn new() -> (s: Self)
        ensures
            s.interpreter@ == Seq::<u8>::empty(),
            !s.seen_space,
            s.total == 0,
    {
        InterpreterScan { interpreter: Vec::new(), seen_space: false, total: 0 }
    }

    /// Whether more input is wanted: fewer than [`MAXIMUM_BYTES`] bytes were looked
    /// at.
    pub fn wants_more(&self) -> (b: bool)
        ensures
            b == (self.total < MAXIMUM_BYTES),
    {
        self.total < MAXIMUM_BYTES
    }

    /// Scans the next chunk of input.
    pub fn feed(&mut self, chunk: &[u8])
        requires
            old(self).total + chunk@.len() <= usize::MAX,
        ensures
            (final(self).interpreter@, final(self).seen_space, final(self).total as int) == scan_from(
                old(self).interpreter@,
                old(self).seen_space,
                old(self).total as int,
                0,
                chunk@,
            ),
    {
        let n = chunk.len();
        let mut i: usize = 0;
        let ghost start = (old(self).interpreter@, old(self).seen_space, old(self).total as int);
        proof {
            assert(chunk@.skip(0) =~= chunk@);
        }
        while i < n
            invariant
                i <= n,
                n == chunk@.len(),
                self.total == old(self).total + i,
                old(self).total + n <= usize::MAX,
                start == (old(self).interpreter@, old(self).seen_space, old(self).total as int),
                scan_from(self.interpreter@, self.seen_space, self.total as int, i as int, chunk@.skip(i as int))
                    == scan_from(start.0, start.1, start.2, 0, chunk@),
            decreases n - i,
        {
            let c = chunk[i];
            let ghost before = (self.interpreter@, self.seen_space, self.total as int);
            proof {
                assert(chunk@.skip(i as int)[0] == c);
                assert(chunk@.skip(i as int).drop_first() =~= chunk@.skip(i + 1));
                assert(chunk@.skip(i as int).len() > 0);
            }
            self.total = self.total + 1;
            if (i == 0 && c == 0x23) || (i == 1 && c == 0x21) {
            } else if i == 0 || i == 1 || c == 0x0a {
                proof {
                    assert(scan_from(before.0, before.1, before.2, i as int, chunk@.skip(i as int)) == (before.0, before.1, before.2 + 1));
                }
                return;
            } else if c == 0x2f {
                self.interpreter = Vec::new();
            } else if c == 0x20 && self.seen_space {
                proof {
                    assert(scan_from(before.0, before.1, before.2, i as int, chunk@.skip(i as int)) == (before.0, before.1, before.2 + 1));
                }
                return;
            } else if c == 0x20 {
                self.seen_space = true;
                self.interpreter = Vec::new();
            } else {
                self.interpreter.push(c);
            }
            i = i + 1;
        }
        proof {
            assert(chunk@.skip(n as int) =~= Seq::<u8>::empty());
        }
    }

    /// The interpreter found, if any.
    pub fn finish(&self) -> (r: Option<String>)
        ensures
            match r {
                Some(s) => self.interpreter@.len() > 0 && s@ == bytes_as_chars(self.interpreter@),
                None => self.interpreter@.len() == 0,
            },
    {
        let n = self.interpreter.len();
        if n == 0 {
            return None;
        }
        let mut cs: Vec<char> = Vec::new();
        let mut i: usize = 0;
        while i < n
            invariant
                i <= n,
                n == self.interpreter@.len(),
                cs@ == bytes_as_chars(self.interpreter@.take(i as int)),
            decreases n - i,
        {
            cs.push(self.interpreter[i] as char);
            proof {
                assert(bytes_as_chars(self.interpreter@.take(i + 1)) =~= bytes_as_chars(self.interpreter@.take(i as int)).push(self.interpreter@[i as int] as char));
            }
            i = i + 1;
        }
        proof {
            assert(self.interpreter@.take(n as int) =~= self.interpreter@);
        }
        Some(from_chars(cs.as_slice()))
    }
}

} // verus!
