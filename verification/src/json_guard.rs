use vstd::prelude::*;

verus! {

/// How deep arrays and objects may be nested in a text that is handed to
/// the JSON parser, which descends into them by recursion.
pub const DEPTH_LIMIT: usize = 512;

/// How many bytes the keys on the path to a value may take together,
/// escapes counted as written: the parser keeps them in a buffer that it
/// indexes with 16 bits.
pub const KEY_BYTES_LIMIT: usize = 0xffff;

/// How many bytes a text may have.
pub const LENGTH_LIMIT: usize = 0xffff_ffff;

/// How many digits an exponent may have: as many as cannot exceed the
/// largest `usize` when they are added up, whatever digits they are.
pub open spec fn exponent_limit() -> usize {
    if usize::MAX > 0xffff_ffff {
        19
    } else {
        9
    }
}

/// Where a scan stands behind an `e` outside a string.
#[derive(Debug, Clone, Copy, PartialEq, Eq, Structural)]
pub enum Exponent {
    /// Not behind an `e`.
    Outside,
    /// Right behind the `e`.
    Marker,
    /// Behind the sign that follows the `e`.
    Sign,
    /// Behind so many digits of the exponent.
    Digits(usize),
}

/// What a scan of the front of a text has found.
pub struct Scan {
    /// No limit was exceeded.
    pub within: bool,
    /// The scan stands inside a string.
    pub in_string: bool,
    /// The scan stands right behind a backslash inside a string.
    pub escaped: bool,
    /// For each array and object that is open, the outermost first, the
    /// bytes of the key whose value the scan stands in; zero where there is
    /// no such key.
    pub levels: Seq<usize>,
    /// The bytes of the string that was opened last, counted up to one
    /// above `KEY_BYTES_LIMIT`.
    pub string_bytes: usize,
    pub exponent: Exponent,
    /// The scan stands outside a string behind a comma, with nothing but
    /// white space since.
    pub after_comma: bool,
}

pub open spec fn is_digit(byte: u8) -> bool {
    0x30 <= byte <= 0x39
}

/// The scan of an empty text.
pub open spec fn scan_start() -> Scan {
    Scan {
        within: true,
        in_string: false,
        escaped: false,
        levels: Seq::empty(),
        string_bytes: 0,
        exponent: Exponent::Outside,
        after_comma: false,
    }
}

/// Whether a byte is white space between the tokens of a JSON text.
pub open spec fn is_space(byte: u8) -> bool {
    byte == 0x20 || byte == 0x0a || byte == 0x09 || byte == 0x0d
}

/// Whether a scan stands behind a comma after one more byte outside a
/// string.
pub open spec fn comma_step(after_comma: bool, byte: u8) -> bool {
    if byte == 0x2c {
        true
    } else if is_space(byte) {
        after_comma
    } else {
        false
    }
}

/// One byte more of a string's text, counted up to one above
/// `KEY_BYTES_LIMIT`.
pub open spec fn counted(string_bytes: usize) -> usize {
    if string_bytes <= KEY_BYTES_LIMIT {
        (string_bytes + 1) as usize
    } else {
        string_bytes
    }
}

/// The bytes that the keys of the open levels take together.
pub open spec fn key_bytes(levels: Seq<usize>) -> int
    decreases levels.len(),
{
    if levels.len() == 0 {
        0
    } else {
        key_bytes(levels.drop_last()) + levels.last()
    }
}

/// The place behind an `e` after one more byte outside a string.
pub open spec fn exponent_step(exponent: Exponent, byte: u8) -> Exponent {
    if byte == 0x65 || byte == 0x45 {
        Exponent::Marker
    } else if is_digit(byte) {
        match exponent {
            Exponent::Outside => Exponent::Outside,
            Exponent::Marker => Exponent::Digits(1),
            Exponent::Sign => Exponent::Digits(1),
            Exponent::Digits(n) => if n <= exponent_limit() {
                Exponent::Digits((n + 1) as usize)
            } else {
                Exponent::Digits(n)
            },
        }
    } else if (byte == 0x2b || byte == 0x2d) && exponent == Exponent::Marker {
        Exponent::Sign
    } else {
        Exponent::Outside
    }
}

/// The scan after one more byte.
///
/// Inside a string only the backslash and the closing quote count. Outside
/// one, a quote opens a string, a bracket or brace opens or closes a level,
/// a colon makes the string before it the key of the innermost level, and
/// an `e` begins what may be an exponent. A limit is exceeded by a level
/// beyond `DEPTH_LIMIT`, by keys of more than `KEY_BYTES_LIMIT` bytes on
/// one path, and by an exponent of more digits than `exponent_limit`. A
/// closing brace behind a comma ends the scan as well: there the parser
/// loses its place.
pub open spec fn scan_step(scan: Scan, byte: u8) -> Scan {
    if !scan.within {
        scan
    } else if scan.in_string {
        if scan.escaped {
            Scan { escaped: false, string_bytes: counted(scan.string_bytes), ..scan }
        } else if byte == 0x5c {
            Scan { escaped: true, string_bytes: counted(scan.string_bytes), ..scan }
        } else if byte == 0x22 {
            Scan { in_string: false, ..scan }
        } else {
            Scan { string_bytes: counted(scan.string_bytes), ..scan }
        }
    } else {
        let exponent = exponent_step(scan.exponent, byte);
        let after_comma = comma_step(scan.after_comma, byte);
        if byte == 0x22 {
            Scan { in_string: true, escaped: false, string_bytes: 0, exponent, after_comma, ..scan }
        } else if byte == 0x5b || byte == 0x7b {
            if scan.levels.len() < DEPTH_LIMIT {
                Scan { levels: scan.levels.push(0), exponent, after_comma, ..scan }
            } else {
                Scan { within: false, exponent, after_comma, ..scan }
            }
        } else if byte == 0x5d || byte == 0x7d {
            Scan {
                within: !(byte == 0x7d && scan.after_comma),
                levels: if scan.levels.len() > 0 {
                    scan.levels.drop_last()
                } else {
                    scan.levels
                },
                exponent,
                after_comma,
                ..scan
            }
        } else if byte == 0x3a {
            if scan.levels.len() > 0 {
                let held = scan.levels.update(scan.levels.len() - 1, scan.string_bytes);
                Scan {
                    within: key_bytes(held) <= KEY_BYTES_LIMIT,
                    levels: held,
                    exponent,
                    after_comma,
                    ..scan
                }
            } else {
                Scan { exponent, after_comma, ..scan }
            }
        } else {
            Scan {
                within: match exponent {
                    Exponent::Digits(n) => n <= exponent_limit(),
                    _ => true,
                },
                exponent,
                after_comma,
                ..scan
            }
        }
    }
}

/// The scan of a whole text, byte by byte.
pub open spec fn scan_of(bytes: Seq<u8>) -> Scan
    decreases bytes.len(),
{
    if bytes.len() == 0 {
        scan_start()
    } else {
        scan_step(scan_of(bytes.drop_last()), bytes.last())
    }
}

/// Whether a text stays within the limits inside which the JSON parser is
/// known to return: its length, the depth of its nesting, the bytes of the
/// keys on one path and the digits of its exponents; and no closing brace
/// of it stands behind a comma.
pub open spec fn within_limits(bytes: Seq<u8>) -> bool {
    bytes.len() <= LENGTH_LIMIT && scan_of(bytes).within
}

/// The keys of the outer levels take no more bytes than the keys of all
/// levels.
pub proof fn lemma_key_bytes_prefix(levels: Seq<usize>, upto: int)
    requires
        0 <= upto <= levels.len(),
    ensures
        0 <= key_bytes(levels.take(upto)) <= key_bytes(levels),
    decreases levels.len(),
{
    if upto == levels.len() {
        assert(levels.take(upto) =~= levels);
        if levels.len() > 0 {
            lemma_key_bytes_prefix(levels.drop_last(), upto - 1);
            assert(levels.drop_last().take(upto - 1) =~= levels.drop_last());
        }
    } else {
        lemma_key_bytes_prefix(levels.drop_last(), upto);
        assert(levels.drop_last().take(upto) =~= levels.take(upto));
    }
}

/// The state of a scan.
struct Scanner {
    within: bool,
    in_string: bool,
    escaped: bool,
    levels: Vec<usize>,
    string_bytes: usize,
    exponent: Exponent,
    after_comma: bool,
}

impl Scanner {
    /// What the scan has found.
    spec fn model(&self) -> Scan {
        Scan {
            within: self.within,
            in_string: self.in_string,
            escaped: self.escaped,
            levels: self.levels@,
            string_bytes: self.string_bytes,
            exponent: self.exponent,
            after_comma: self.after_comma,
        }
    }
}

/// The largest number of digits that an exponent may have.
fn most_exponent_digits() -> (limit: usize)
    ensures
        limit == exponent_limit(),
{
    if usize::MAX > 0xffff_ffff {
        19
    } else {
        9
    }
}

/// Whether the keys of the open levels fit the parser's buffer.
fn keys_fit(levels: &Vec<usize>) -> (fits: bool)
    requires
        forall|i: int| 0 <= i < levels@.len() ==> levels@[i] <= KEY_BYTES_LIMIT + 1,
    ensures
        fits == (key_bytes(levels@) <= KEY_BYTES_LIMIT),
{
    let mut sum: usize = 0;
    let mut i: usize = 0;
    assert(levels@.take(0) =~= Seq::empty());
    while i < levels.len()
        invariant
            i <= levels@.len(),
            sum == key_bytes(levels@.take(i as int)),
            sum <= KEY_BYTES_LIMIT,
            forall|k: int| 0 <= k < levels@.len() ==> levels@[k] <= KEY_BYTES_LIMIT + 1,
        decreases levels@.len() - i,
    {
        proof {
            assert(levels@.take(i + 1).drop_last() =~= levels@.take(i as int));
            assert(levels@.take(i + 1).last() == levels@[i as int]);
            lemma_key_bytes_prefix(levels@, i + 1);
        }
        if levels[i] > KEY_BYTES_LIMIT - sum {
            return false;
        }
        sum = sum + levels[i];
        i += 1;
    }
    assert(levels@.take(i as int) =~= levels@);
    true
}

impl Scanner {
    /// What keeps the counters of a scan from running over.
    spec fn bounded(&self) -> bool {
        &&& self.levels@.len() <= DEPTH_LIMIT
        &&& forall|i: int| 0 <= i < self.levels@.len() ==> self.levels@[i] <= KEY_BYTES_LIMIT + 1
        &&& self.string_bytes <= KEY_BYTES_LIMIT + 1
        &&& self.exponent matches Exponent::Digits(n) ==> n <= exponent_limit() + 1
    }

    /// Takes one more byte.
    fn advance(&mut self, byte: u8)
        requires
            old(self).bounded(),
        ensures
            final(self).model() == scan_step(old(self).model(), byte),
            final(self).bounded(),
    {
        if !self.within {
            return ;
        }
        if self.in_string {
            let more = if self.string_bytes <= KEY_BYTES_LIMIT {
                self.string_bytes + 1
            } else {
                self.string_bytes
            };
            if self.escaped {
                self.escaped = false;
                self.string_bytes = more;
            } else if byte == 0x5c {
                self.escaped = true;
                self.string_bytes = more;
            } else if byte == 0x22 {
                self.in_string = false;
            } else {
                self.string_bytes = more;
            }
            return ;
        }
        let limit = most_exponent_digits();
        let digit = 0x30 <= byte && byte <= 0x39;
        self.exponent = if byte == 0x65 || byte == 0x45 {
            Exponent::Marker
        } else if digit {
            match self.exponent {
                Exponent::Outside => Exponent::Outside,
                Exponent::Marker => Exponent::Digits(1),
                Exponent::Sign => Exponent::Digits(1),
                Exponent::Digits(n) => if n <= limit {
                    Exponent::Digits(n + 1)
                } else {
                    Exponent::Digits(n)
                },
            }
        } else if (byte == 0x2b || byte == 0x2d) && self.exponent == Exponent::Marker {
            Exponent::Sign
        } else {
            Exponent::Outside
        };
        let behind_comma = self.after_comma;
        self.after_comma = if byte == 0x2c {
            true
        } else if byte == 0x20 || byte == 0x0a || byte == 0x09 || byte == 0x0d {
            behind_comma
        } else {
            false
        };
        if byte == 0x22 {
            self.in_string = true;
            self.escaped = false;
            self.string_bytes = 0;
        } else if byte == 0x5b || byte == 0x7b {
            if self.levels.len() < DEPTH_LIMIT {
                self.levels.push(0);
            } else {
                self.within = false;
            }
        } else if byte == 0x5d || byte == 0x7d {
            if self.levels.len() > 0 {
                let ghost before = self.levels@;
                let _ = self.levels.pop();
                assert(self.levels@ =~= before.drop_last());
            }
            self.within = !(byte == 0x7d && behind_comma);
        } else if byte == 0x3a {
            if self.levels.len() > 0 {
                let innermost = self.levels.len() - 1;
                self.levels.set(innermost, self.string_bytes);
                self.within = keys_fit(&self.levels);
            }
        } else {
            self.within = match self.exponent {
                Exponent::Digits(n) => n <= limit,
                _ => true,
            };
        }
    }
}

/// Whether a text stays within the limits of the JSON parser.
pub fn is_within_limits(bytes: &[u8]) -> (yes: bool)
    ensures
        yes == within_limits(bytes@),
{
    if bytes.len() > LENGTH_LIMIT {
        return false;
    }
    let mut scanner = Scanner {
        within: true,
        in_string: false,
        escaped: false,
        levels: Vec::new(),
        string_bytes: 0,
        exponent: Exponent::Outside,
        after_comma: false,
    };
    let mut i: usize = 0;
    assert(bytes@.take(0) =~= Seq::empty());
    while i < bytes.len()
        invariant
            i <= bytes@.len(),
            scanner.model() == scan_of(bytes@.take(i as int)),
            scanner.bounded(),
        decreases bytes@.len() - i,
    {
        proof {
            assert(bytes@.take(i + 1).drop_last() =~= bytes@.take(i as int));
            assert(bytes@.take(i + 1).last() == bytes@[i as int]);
        }
        scanner.advance(bytes[i]);
        i += 1;
    }
    assert(bytes@.take(i as int) =~= bytes@);
    scanner.within
}

} // verus!
