//! Reads a grid from the text of a map: a header that names the kind of map
//! and its height and width, the word `map`, and then the rows of tiles, one
//! character for each tile.

use crate::grid::{Grid, Terrain, Tile, TileView};
use vstd::prelude::*;

verus! {

/// Whether a character beyond ASCII is white space, as `char::is_whitespace`
/// says.
pub uninterp spec fn wide_space(c: char) -> bool;

/// Whether a character of ASCII is white space: the blank, the tab, the line
/// feed, the vertical tab, the form feed or the carriage return.
pub open spec fn ascii_space(c: char) -> bool {
    c == ' ' || ('\t' <= c && c <= '\r')
}

/// Whether `c` is white space, as `char::is_whitespace` says.
pub open spec fn is_space(c: char) -> bool {
    if c <= '\x7f' {
        ascii_space(c)
    } else {
        wide_space(c)
    }
}

/// `char::is_whitespace` of the standard library, which tells whether a
/// character has Unicode's white space property. The contract says what the
/// property is among the characters of ASCII: the blank and the five controls
/// from the tab to the carriage return have it, and no other does: no letter,
/// no digit and none of the symbols of a map. Beyond ASCII it gives the
/// answer the name `wide_space`.
#[verifier::external_body]
fn is_whitespace(c: char) -> (space: bool)
    ensures
        space == is_space(c),
        c > '\x7f' ==> space == wide_space(c),
{
    c.is_whitespace()
}

/// What was wrong with the text.
#[derive(Debug)]
pub enum Fault {
    /// Another word stood where `word` was due.
    Expected { word: Vec<char>, found: Vec<char> },
    /// A word that is no number stood where a number was due.
    ExpectedInteger { found: Vec<char> },
    /// A row of the map ended before its last tile.
    EndOfLine,
    /// A character of the map stands for no terrain.
    Symbol(char),
    /// The text ended before the map's last tile.
    EndOfInput,
    /// The height or the width of the map is 0.
    NoTiles,
}

/// A fault, and the line and column at which reading stopped, both counted
/// from 0.
#[derive(Debug)]
pub struct ParseError {
    pub line: usize,
    pub column: usize,
    pub fault: Fault,
}

/// A fault as contracts see it.
pub enum FaultView {
    Expected { word: Seq<char>, found: Seq<char> },
    ExpectedInteger { found: Seq<char> },
    EndOfLine,
    Symbol(char),
    EndOfInput,
    NoTiles,
}

/// A parse error as contracts see it.
pub struct ParseErrorView {
    pub line: int,
    pub column: int,
    pub fault: FaultView,
}

impl View for Fault {
    type V = FaultView;

    open spec fn view(&self) -> FaultView {
        match *self {
            Fault::Expected { word, found } => FaultView::Expected { word: word@, found: found@ },
            Fault::ExpectedInteger { found } => FaultView::ExpectedInteger { found: found@ },
            Fault::EndOfLine => FaultView::EndOfLine,
            Fault::Symbol(c) => FaultView::Symbol(c),
            Fault::EndOfInput => FaultView::EndOfInput,
            Fault::NoTiles => FaultView::NoTiles,
        }
    }
}

impl View for ParseError {
    type V = ParseErrorView;

    open spec fn view(&self) -> ParseErrorView {
        ParseErrorView { line: self.line as int, column: self.column as int, fault: self.fault@ }
    }
}

/// The first place from `from` on that holds no white space, or the end.
pub open spec fn skip_spaces(data: Seq<char>, from: int) -> int
    decreases data.len() - from,
{
    if 0 <= from < data.len() && is_space(data[from]) {
        skip_spaces(data, from + 1)
    } else {
        from
    }
}

/// The first place from `from` on that holds white space, or the end.
pub open spec fn word_end(data: Seq<char>, from: int) -> int
    decreases data.len() - from,
{
    if 0 <= from < data.len() && !is_space(data[from]) {
        word_end(data, from + 1)
    } else {
        from
    }
}

/// The number of line breaks before the place `upto`.
pub open spec fn lines_before(data: Seq<char>, upto: int) -> int
    decreases upto,
{
    if upto <= 0 {
        0
    } else {
        lines_before(data, upto - 1) + if data[upto - 1] == '\n' {
            1int
        } else {
            0int
        }
    }
}

/// The number of characters between the last line break before the place
/// `upto` and that place.
pub open spec fn column_at(data: Seq<char>, upto: int) -> int
    decreases upto,
{
    if upto <= 0 {
        0
    } else if data[upto - 1] == '\n' {
        0
    } else {
        column_at(data, upto - 1) + 1
    }
}

/// The error that reports `fault` at the place `at`.
pub open spec fn error_at(data: Seq<char>, at: int, fault: FaultView) -> ParseErrorView {
    ParseErrorView { line: lines_before(data, at), column: column_at(data, at), fault }
}

/// The line and the column of a place are no more than the place.
proof fn lemma_place_bounds(data: Seq<char>, upto: int)
    requires
        0 <= upto,
    ensures
        0 <= lines_before(data, upto) <= upto,
        0 <= column_at(data, upto) <= upto,
    decreases upto,
{
    if upto > 0 {
        lemma_place_bounds(data, upto - 1);
    }
}

/// The value of a decimal digit.
pub open spec fn digit_value(c: char) -> Option<nat> {
    if '0' <= c && c <= '9' {
        Some((c as u32 - '0' as u32) as nat)
    } else {
        None
    }
}

/// The number that a run of decimal digits writes, 0 for the empty run;
/// `None` where a character is no digit.
pub open spec fn digits_value(digits: Seq<char>) -> Option<nat>
    decreases digits.len(),
{
    if digits.len() == 0 {
        Some(0)
    } else {
        match (digits_value(digits.drop_last()), digit_value(digits.last())) {
            (Some(value), Some(digit)) => Some(value * 10 + digit),
            _ => None,
        }
    }
}

/// The number that `word` writes: decimal digits, at least one, after an
/// optional `+`.
pub open spec fn decimal(word: Seq<char>) -> Option<nat> {
    let digits = if word.len() > 0 && word[0] == '+' {
        word.subrange(1, word.len() as int)
    } else {
        word
    };
    if digits.len() == 0 {
        None
    } else {
        digits_value(digits)
    }
}

/// The terrain that a character of the map stands for.
pub open spec fn terrain_of(c: char) -> Option<Terrain> {
    if c == '.' || c == 'G' {
        Some(Terrain::Ground)
    } else if c == '@' || c == 'O' {
        Some(Terrain::OutOfBounds)
    } else if c == 'T' {
        Some(Terrain::Trees)
    } else if c == 'S' {
        Some(Terrain::Swamp)
    } else if c == 'W' {
        Some(Terrain::Water)
    } else {
        None
    }
}

/// Reading the word `word` from the place `from`, after white space: the
/// place behind the word read, or the error that another word was found.
pub open spec fn read_word(data: Seq<char>, from: int, word: Seq<char>) -> Result<
    int,
    ParseErrorView,
> {
    let start = skip_spaces(data, from);
    let end = word_end(data, start);
    if data.subrange(start, end) == word {
        Ok(end)
    } else {
        Err(error_at(data, end, FaultView::Expected { word, found: data.subrange(start, end) }))
    }
}

/// Reading a number from the place `from`: the number and the place behind
/// it, or the error that the word there is no number that fits.
pub open spec fn read_int(data: Seq<char>, from: int) -> Result<(usize, int), ParseErrorView> {
    let end = word_end(data, from);
    let word = data.subrange(from, end);
    match decimal(word) {
        Some(value) if value <= usize::MAX => Ok((value as usize, end)),
        _ => Err(error_at(data, end, FaultView::ExpectedInteger { found: word })),
    }
}

/// Reading the word `name` and then a number, each after white space.
pub open spec fn read_constant(data: Seq<char>, from: int, name: Seq<char>) -> Result<
    (usize, int),
    ParseErrorView,
> {
    match read_word(data, from, name) {
        Ok(behind) => read_int(data, skip_spaces(data, behind)),
        Err(error) => Err(error),
    }
}

/// Reading `width` tiles of one row from the place `from`.
pub open spec fn read_cells(data: Seq<char>, from: int, width: nat) -> Result<
    (Seq<Terrain>, int),
    ParseErrorView,
>
    decreases width,
{
    if width == 0 {
        Ok((Seq::empty(), from))
    } else if !(0 <= from < data.len()) {
        Err(error_at(data, from, FaultView::EndOfInput))
    } else {
        match terrain_of(data[from]) {
            Some(terrain) => match read_cells(data, from + 1, (width - 1) as nat) {
                Ok((rest, behind)) => Ok((seq![terrain] + rest, behind)),
                Err(error) => Err(error),
            },
            None => Err(
                error_at(
                    data,
                    from,
                    if data[from] == '\n' {
                        FaultView::EndOfLine
                    } else {
                        FaultView::Symbol(data[from])
                    },
                ),
            ),
        }
    }
}

/// Reading `height` rows of `width` tiles from the place `from`, each row
/// after white space.
pub open spec fn read_rows(data: Seq<char>, from: int, height: nat, width: nat) -> Result<
    Seq<Seq<Terrain>>,
    ParseErrorView,
>
    decreases height,
{
    if height == 0 {
        Ok(Seq::empty())
    } else {
        match read_cells(data, skip_spaces(data, from), width) {
            Ok((row, behind)) => match read_rows(data, behind, (height - 1) as nat, width) {
                Ok(rest) => Ok(seq![row] + rest),
                Err(error) => Err(error),
            },
            Err(error) => Err(error),
        }
    }
}

/// Reading a whole map from the place `from`: `type octile`, `height` and
/// `width` with their numbers, `map`, and the rows. A map of height or width
/// 0 is an error, placed behind the number of the width.
pub open spec fn read_grid(data: Seq<char>, from: int) -> Result<
    Seq<Seq<Terrain>>,
    ParseErrorView,
> {
    match read_word(data, from, "type"@) {
        Err(error) => Err(error),
        Ok(after_type) => match read_word(data, after_type, "octile"@) {
            Err(error) => Err(error),
            Ok(after_kind) => match read_constant(data, after_kind, "height"@) {
                Err(error) => Err(error),
                Ok((height, after_height)) => match read_constant(data, after_height, "width"@) {
                    Err(error) => Err(error),
                    Ok((width, after_width)) => if height == 0 || width == 0 {
                        Err(error_at(data, after_width, FaultView::NoTiles))
                    } else {
                        match read_word(data, after_width, "map"@) {
                            Err(error) => Err(error),
                            Ok(after_map) => read_rows(
                                data,
                                after_map,
                                height as nat,
                                width as nat,
                            ),
                        }
                    },
                },
            },
        },
    }
}

/// The cells read are as many as were asked for.
proof fn lemma_read_cells_length(data: Seq<char>, from: int, width: nat)
    ensures
        read_cells(data, from, width) matches Ok(read) ==> read.0.len() == width,
    decreases width,
{
    if width > 0 && 0 <= from < data.len() {
        lemma_read_cells_length(data, from + 1, (width - 1) as nat);
    }
}

/// The rows read are as many as were asked for, and as wide.
proof fn lemma_read_rows_shape(data: Seq<char>, from: int, height: nat, width: nat)
    ensures
        read_rows(data, from, height, width) matches Ok(rows) ==> rows.len() == height
            && forall|y: int| 0 <= y < rows.len() ==> (#[trigger] rows[y]).len() == width,
    decreases height,
{
    if height > 0 {
        lemma_read_cells_length(data, skip_spaces(data, from), width);
        if let Ok((row, behind)) = read_cells(data, skip_spaces(data, from), width) {
            lemma_read_rows_shape(data, behind, (height - 1) as nat, width);
        }
    }
}

/// A map that is read has tiles: a row at least, and a tile at least in every
/// row, all rows being of one width.
pub proof fn law_map_has_tiles(data: Seq<char>, from: int)
    ensures
        read_grid(data, from) matches Ok(rows) ==> {
            &&& rows.len() > 0
            &&& rows[0].len() > 0
            &&& forall|y: int| 0 <= y < rows.len() ==> (#[trigger] rows[y]).len() == rows[0].len()
        },
{
    if let Ok(after_type) = read_word(data, from, "type"@) {
        if let Ok(after_kind) = read_word(data, after_type, "octile"@) {
            if let Ok((height, after_height)) = read_constant(data, after_kind, "height"@) {
                if let Ok((width, after_width)) = read_constant(data, after_height, "width"@) {
                    if height != 0 && width != 0 {
                        if let Ok(after_map) = read_word(data, after_width, "map"@) {
                            lemma_read_rows_shape(data, after_map, height as nat, width as nat);
                        }
                    }
                }
            }
        }
    }
}

/// Whether `grid` is the new grid of the given terrain: nothing is believed
/// of its tiles and no search has marked them.
pub open spec fn is_new_grid(grid: &Grid, terrain: Seq<Seq<Terrain>>) -> bool {
    &&& grid.rows().len() == terrain.len()
    &&& grid.episode() == 0
    &&& grid.wf()
    &&& forall|y: int|
        0 <= y < terrain.len() ==> (#[trigger] grid.rows()[y]).len() == terrain[y].len()
    &&& forall|y: int, x: int|
        0 <= y < terrain.len() && 0 <= x < terrain[y].len() ==> (#[trigger] grid.rows()[y][x])@
            == TileView::fresh(terrain[y][x])
}

/// The characters of a string.
pub fn chars_of(text: &str) -> (chars: Vec<char>)
    ensures
        chars@ == text@,
{
    let len = text.unicode_len();
    let mut chars: Vec<char> = Vec::new();
    let mut i: usize = 0;
    while i < len
        invariant
            len == text@.len(),
            i <= len,
            chars@ == text@.subrange(0, i as int),
        decreases len - i,
    {
        chars.push(text.get_char(i));
        proof {
            assert(chars@ =~= text@.subrange(0, i + 1));
        }
        i += 1;
    }
    proof {
        assert(chars@ =~= text@);
    }
    chars
}

/// Whether two runs of characters are the same.
fn same_chars(a: &Vec<char>, b: &Vec<char>) -> (same: bool)
    ensures
        same == (a@ == b@),
{
    if a.len() != b.len() {
        return false;
    }
    let mut i: usize = 0;
    while i < a.len()
        invariant
            a@.len() == b@.len(),
            i <= a@.len(),
            a@.subrange(0, i as int) == b@.subrange(0, i as int),
        decreases a.len() - i,
    {
        if a[i] != b[i] {
            return false;
        }
        proof {
            assert(a@.subrange(0, i + 1) =~= a@.subrange(0, i as int).push(a@[i as int]));
            assert(b@.subrange(0, i + 1) =~= b@.subrange(0, i as int).push(b@[i as int]));
        }
        i += 1;
    }
    proof {
        assert(a@ =~= a@.subrange(0, a@.len() as int));
        assert(b@ =~= b@.subrange(0, b@.len() as int));
    }
    true
}

/// A run of digits that writes a number writes, up to any place, a number
/// that is no larger.
proof fn lemma_digits_prefix(digits: Seq<char>, upto: int)
    requires
        0 <= upto <= digits.len(),
        digits_value(digits) is Some,
    ensures
        digits_value(digits.subrange(0, upto)) is Some,
        digits_value(digits.subrange(0, upto)).unwrap() <= digits_value(digits).unwrap(),
    decreases digits.len(),
{
    if upto == digits.len() {
        assert(digits.subrange(0, upto) =~= digits);
    } else {
        lemma_digits_prefix(digits.drop_last(), upto);
        assert(digits.drop_last().subrange(0, upto) =~= digits.subrange(0, upto));
    }
}

/// The number that `word` writes, if it writes one that fits.
fn parse_decimal(word: &Vec<char>) -> (number: Option<usize>)
    ensures
        number == match decimal(word@) {
            Some(value) if value <= usize::MAX => Some(value as usize),
            _ => None,
        },
{
    let start: usize = if word.len() > 0 && word[0] == '+' {
        1
    } else {
        0
    };
    if start == word.len() {
        return None;
    }
    let ghost digits = word@.subrange(start as int, word@.len() as int);
    proof {
        if start == 0 {
            assert(digits =~= word@);
        }
        assert(digits.subrange(0, 0) =~= Seq::<char>::empty());
    }
    let mut value: usize = 0;
    let mut i: usize = start;
    while i < word.len()
        invariant
            start <= i <= word@.len(),
            digits == word@.subrange(start as int, word@.len() as int),
            digits.len() > 0,
            decimal(word@) == digits_value(digits),
            digits_value(digits.subrange(0, i - start)) == Some(value as nat),
        decreases word.len() - i,
    {
        let c = word[i];
        let ghost before = digits.subrange(0, i - start);
        let ghost after = digits.subrange(0, i - start + 1);
        proof {
            assert(after.drop_last() =~= before);
            assert(after.last() == c);
            if digits_value(digits) is Some {
                lemma_digits_prefix(digits, i - start + 1);
            }
        }
        if c < '0' || c > '9' {
            return None;
        }
        let digit: usize = (c as u32 - '0' as u32) as usize;
        if value > (usize::MAX - digit) / 10 {
            return None;
        }
        value = value * 10 + digit;
        i += 1;
    }
    proof {
        assert(digits.subrange(0, i - start) =~= digits);
    }
    Some(value)
}

/// A reader of a map's text: the text, the place reached, and the line and
/// column of that place.
#[derive(Debug)]
pub struct Parser {
    data: Vec<char>,
    position: usize,
    line: usize,
    column: usize,
}

impl Parser {
    /// The text.
    pub closed spec fn data(&self) -> Seq<char> {
        self.data@
    }

    /// The place reached.
    pub closed spec fn position(&self) -> int {
        self.position as int
    }

    /// Whether the place lies in the text or at its end, and the line and
    /// column are those of the place.
    pub closed spec fn wf(&self) -> bool {
        &&& self.position <= self.data@.len()
        &&& self.line == lines_before(self.data@, self.position as int)
        &&& self.column == column_at(self.data@, self.position as int)
    }

    pub fn new(data: Vec<char>) -> (parser: Parser)
        ensures
            parser.wf(),
            parser.data() == data@,
            parser.position() == 0,
    {
        Parser { data: data, position: 0, line: 0, column: 0 }
    }

    /// Moves one place on, unless the end is reached.
    pub fn shift(&mut self)
        requires
            old(self).wf(),
        ensures
            final(self).wf(),
            final(self).data() == old(self).data(),
            final(self).position() == if old(self).position() < old(self).data().len() {
                old(self).position() + 1
            } else {
                old(self).position()
            },
    {
        if self.position < self.data.len() {
            proof {
                lemma_place_bounds(self.data@, self.position as int);
            }
            if self.data[self.position] == '\n' {
                self.line += 1;
                self.column = 0;
            } else {
                self.column += 1;
            }
            self.position += 1;
        }
    }

    /// Moves on over white space.
    pub fn consume_ws(&mut self)
        requires
            old(self).wf(),
        ensures
            final(self).wf(),
            final(self).data() == old(self).data(),
            final(self).position() == skip_spaces(old(self).data(), old(self).position()),
    {
        while self.position < self.data.len() && is_whitespace(self.data[self.position])
            invariant
                self.wf(),
                self.data@ == old(self).data@,
                skip_spaces(self.data@, self.position as int) == skip_spaces(
                    old(self).data@,
                    old(self).position as int,
                ),
            decreases self.data@.len() - self.position,
        {
            self.shift();
        }
    }

    /// Moves on over a word, up to white space or the end, and gives the
    /// word.
    fn take_word(&mut self) -> (word: Vec<char>)
        requires
            old(self).wf(),
        ensures
            final(self).wf(),
            final(self).data() == old(self).data(),
            final(self).position() == word_end(old(self).data(), old(self).position()),
            word@ == old(self).data().subrange(old(self).position(), final(self).position()),
    {
        let mut word: Vec<char> = Vec::new();
        while self.position < self.data.len() && !is_whitespace(self.data[self.position])
            invariant
                self.wf(),
                self.data@ == old(self).data@,
                old(self).position <= self.position,
                word_end(self.data@, self.position as int) == word_end(
                    old(self).data@,
                    old(self).position as int,
                ),
                word@ == self.data@.subrange(old(self).position as int, self.position as int),
            decreases self.data@.len() - self.position,
        {
            word.push(self.data[self.position]);
            proof {
                assert(word@ =~= self.data@.subrange(
                    old(self).position as int,
                    self.position + 1,
                ));
            }
            self.shift();
        }
        word
    }

    /// The error that reports `fault` at the place reached.
    pub fn error(&self, fault: Fault) -> (error: ParseError)
        requires
            self.wf(),
        ensures
            error@ == error_at(self.data(), self.position(), fault@),
    {
        ParseError { line: self.line, column: self.column, fault: fault }
    }

    /// Reads the word `word`, after white space.
    pub fn consume_word(&mut self, word: &str) -> (outcome: Result<(), ParseError>)
        requires
            old(self).wf(),
        ensures
            final(self).wf(),
            final(self).data() == old(self).data(),
            match read_word(old(self).data(), old(self).position(), word@) {
                Ok(behind) => outcome is Ok && final(self).position() == behind,
                Err(error) => outcome matches Err(found) && found@ == error,
            },
    {
        self.consume_ws();
        let read = self.take_word();
        let wanted = chars_of(word);
        if same_chars(&read, &wanted) {
            Ok(())
        } else {
            Err(self.error(Fault::Expected { word: wanted, found: read }))
        }
    }

    /// Reads the word `name` and the number after it.
    pub fn parse_constant(&mut self, name: &str) -> (outcome: Result<usize, ParseError>)
        requires
            old(self).wf(),
        ensures
            final(self).wf(),
            final(self).data() == old(self).data(),
            match read_constant(old(self).data(), old(self).position(), name@) {
                Ok((number, behind)) => outcome == Ok::<usize, ParseError>(number)
                    && final(self).position() == behind,
                Err(error) => outcome matches Err(found) && found@ == error,
            },
    {
        self.consume_ws();
        proof {
            lemma_skip_twice(old(self).data(), old(self).position());
        }
        match self.consume_word(name) {
            Ok(()) => {},
            Err(error) => {
                return Err(error);
            },
        }
        self.consume_ws();
        self.parse_int()
    }

    /// Reads a number: the word up to white space or the end, which must be
    /// decimal digits, after an optional `+`, that write a number that fits.
    pub fn parse_int(&mut self) -> (outcome: Result<usize, ParseError>)
        requires
            old(self).wf(),
        ensures
            final(self).wf(),
            final(self).data() == old(self).data(),
            match read_int(old(self).data(), old(self).position()) {
                Ok((number, behind)) => outcome == Ok::<usize, ParseError>(number)
                    && final(self).position() == behind,
                Err(error) => outcome matches Err(found) && found@ == error,
            },
    {
        let word = self.take_word();
        match parse_decimal(&word) {
            Some(size) => Ok(size),
            None => Err(self.error(Fault::ExpectedInteger { found: word })),
        }
    }

    /// The terrain that the character `c` of the map stands for.
    fn terrain(c: char) -> (terrain: Option<Terrain>)
        ensures
            terrain == terrain_of(c),
    {
        if c == '.' || c == 'G' {
            Some(Terrain::Ground)
        } else if c == '@' || c == 'O' {
            Some(Terrain::OutOfBounds)
        } else if c == 'T' {
            Some(Terrain::Trees)
        } else if c == 'S' {
            Some(Terrain::Swamp)
        } else if c == 'W' {
            Some(Terrain::Water)
        } else {
            None
        }
    }

    /// Reads one row of `width` tiles.
    fn parse_row(&mut self, width: usize) -> (outcome: Result<Vec<Tile>, ParseError>)
        requires
            old(self).wf(),
        ensures
            final(self).wf(),
            final(self).data() == old(self).data(),
            match read_cells(old(self).data(), old(self).position(), width as nat) {
                Ok((cells, behind)) => {
                    &&& outcome matches Ok(row)
                    &&& final(self).position() == behind
                    &&& row@.len() == cells.len()
                    &&& forall|x: int|
                        0 <= x < cells.len() ==> (#[trigger] row@[x])@ == TileView::fresh(cells[x])
                },
                Err(error) => outcome matches Err(found) && found@ == error,
            },
    {
        let mut row: Vec<Tile> = Vec::new();
        let ghost mut cells: Seq<Terrain> = Seq::empty();
        let mut x: usize = 0;
        while x < width
            invariant
                x <= width,
                self.wf(),
                self.data@ == old(self).data@,
                row@.len() == cells.len(),
                forall|k: int| 0 <= k < cells.len() ==> (#[trigger] row@[k])@ == TileView::fresh(
                    cells[k],
                ),
                read_cells(old(self).data(), old(self).position(), width as nat) == match read_cells(
                    self.data@,
                    self.position as int,
                    (width - x) as nat,
                ) {
                    Ok((rest, behind)) => Ok::<(Seq<Terrain>, int), ParseErrorView>(
                        (cells + rest, behind),
                    ),
                    Err(error) => Err(error),
                },
            decreases width - x,
        {
            if self.position >= self.data.len() {
                return Err(self.error(Fault::EndOfInput));
            }
            let c = self.data[self.position];
            let value = match Parser::terrain(c) {
                Some(value) => value,
                None => {
                    if c == '\n' {
                        return Err(self.error(Fault::EndOfLine));
                    } else {
                        return Err(self.error(Fault::Symbol(c)));
                    }
                },
            };
            proof {
                let next = read_cells(self.data@, self.position + 1, (width - x - 1) as nat);
                if let Ok((rest, behind)) = next {
                    assert(cells + (seq![value] + rest) =~= cells.push(value) + rest);
                }
                cells = cells.push(value);
            }
            row.push(Tile::new(value));
            self.shift();
            x += 1;
        }
        proof {
            assert(cells + Seq::<Terrain>::empty() =~= cells);
        }
        Ok(row)
    }

    /// Reads a whole map and builds its grid.
    pub fn parse_grid(&mut self) -> (outcome: Result<Grid, ParseError>)
        requires
            old(self).wf(),
        ensures
            final(self).wf(),
            final(self).data() == old(self).data(),
            match read_grid(old(self).data(), old(self).position()) {
                Ok(terrain) => outcome matches Ok(grid) && is_new_grid(&grid, terrain),
                Err(error) => outcome matches Err(found) && found@ == error,
            },
    {
        match self.consume_word("type") {
            Ok(()) => {},
            Err(error) => {
                return Err(error);
            },
        }
        match self.consume_word("octile") {
            Ok(()) => {},
            Err(error) => {
                return Err(error);
            },
        }
        let height = match self.parse_constant("height") {
            Ok(height) => height,
            Err(error) => {
                return Err(error);
            },
        };
        let width = match self.parse_constant("width") {
            Ok(width) => width,
            Err(error) => {
                return Err(error);
            },
        };
        if height == 0 || width == 0 {
            return Err(self.error(Fault::NoTiles));
        }
        match self.consume_word("map") {
            Ok(()) => {},
            Err(error) => {
                return Err(error);
            },
        }
        let ghost map_start = self.position as int;
        let mut tiles: Vec<Vec<Tile>> = Vec::new();
        let ghost mut terrain: Seq<Seq<Terrain>> = Seq::empty();
        let mut y: usize = 0;
        while y < height
            invariant
                y <= height,
                self.wf(),
                self.data@ == old(self).data@,
                read_grid(old(self).data(), old(self).position()) == read_rows(
                    self.data@,
                    map_start,
                    height as nat,
                    width as nat,
                ),
                tiles@.len() == terrain.len(),
                forall|k: int|
                    0 <= k < terrain.len() ==> (#[trigger] tiles@[k])@.len() == terrain[k].len(),
                forall|k: int, x: int|
                    0 <= k < terrain.len() && 0 <= x < terrain[k].len() ==> (
                    #[trigger] tiles@[k]@[x])@ == TileView::fresh(terrain[k][x]),
                read_rows(self.data@, map_start, height as nat, width as nat) == match read_rows(
                    self.data@,
                    self.position as int,
                    (height - y) as nat,
                    width as nat,
                ) {
                    Ok(rest) => Ok::<Seq<Seq<Terrain>>, ParseErrorView>(terrain + rest),
                    Err(error) => Err(error),
                },
            decreases height - y,
        {
            let ghost head = self.position as int;
            self.consume_ws();
            let ghost row_start = self.position as int;
            let parsed = self.parse_row(width);
            proof {
                assert(read_rows(self.data@, head, (height - y) as nat, width as nat)
                    == match read_cells(self.data@, row_start, width as nat) {
                    Ok((cells, behind)) => match read_rows(
                        self.data@,
                        behind,
                        (height - y - 1) as nat,
                        width as nat,
                    ) {
                        Ok(rest) => Ok::<Seq<Seq<Terrain>>, ParseErrorView>(seq![cells] + rest),
                        Err(error) => Err(error),
                    },
                    Err(error) => Err(error),
                });
            }
            let row = match parsed {
                Ok(row) => row,
                Err(error) => {
                    return Err(error);
                },
            };
            proof {
                let cells = match read_cells(self.data@, row_start, width as nat) {
                    Ok((cells, _)) => cells,
                    Err(_) => Seq::empty(),
                };
                let next = read_rows(
                    self.data@,
                    self.position as int,
                    (height - y - 1) as nat,
                    width as nat,
                );
                if let Ok(rest) = next {
                    assert(terrain + (seq![cells] + rest) =~= terrain.push(cells) + rest);
                }
                terrain = terrain.push(cells);
            }
            tiles.push(row);
            y += 1;
        }
        proof {
            assert(terrain + Seq::<Seq<Terrain>>::empty() =~= terrain);
        }
        let grid = Grid::new(tiles);
        proof {
            assert forall|p: crate::grid::Point| #[trigger] grid.contains(p) implies grid.at(
                p,
            )@.visited == 0 by {
                assert(grid.rows()[p.y as int][p.x as int] == tiles@[p.y as int]@[p.x as int]);
            }
            assert forall|k: int, x: int|
                0 <= k < terrain.len() && 0 <= x < terrain[k].len() implies (
            #[trigger] grid.rows()[k][x])@ == TileView::fresh(terrain[k][x]) by {
                assert(grid.rows()[k][x] == tiles@[k]@[x]);
            }
        }
        Ok(grid)
    }
}

/// Builds the grid that the characters of a map describe, or says what is
/// wrong with them and where.
pub fn grid_from_chars(data: Vec<char>) -> (outcome: Result<Grid, ParseError>)
    ensures
        match read_grid(data@, 0) {
            Ok(terrain) => outcome matches Ok(grid) && is_new_grid(&grid, terrain),
            Err(error) => outcome matches Err(found) && found@ == error,
        },
{
    let mut parser = Parser::new(data);
    parser.parse_grid()
}

/// Builds the grid that the text of a map describes, or says what is wrong
/// with it and where.
pub fn grid_from_str(grid: &str) -> (outcome: Result<Grid, ParseError>)
    ensures
        match read_grid(grid@, 0) {
            Ok(terrain) => outcome matches Ok(built) && is_new_grid(&built, terrain),
            Err(error) => outcome matches Err(found) && found@ == error,
        },
{
    grid_from_chars(chars_of(grid))
}

/// Skipping white space where it has been skipped changes nothing.
proof fn lemma_skip_twice(data: Seq<char>, from: int)
    requires
        0 <= from <= data.len(),
    ensures
        skip_spaces(data, skip_spaces(data, from)) == skip_spaces(data, from),
    decreases data.len() - from,
{
    if from < data.len() && is_space(data[from]) {
        lemma_skip_twice(data, from + 1);
    }
}

} // verus!
