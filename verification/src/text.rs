//! What the screensaver actually says, and how it is set on the page.
//!
//! The animation engine takes a block of text and animates it in place, so
//! everything about presentation (wrapping, where the attribution goes,
//! centring) has to be decided before the engine ever sees it. That is all
//! this module does, and it does it with no I/O and no globals.

use vstd::prelude::*;

use crate::chars;
use crate::chars::{fields, last_occurrence, lines, strings, texts, trimmed, trimmed_end, words};

verus! {

/// How wrapped lines sit against each other.
#[derive(Clone, Copy, PartialEq, Eq, Structural, Debug)]
pub enum Align {
    Center,
    Left,
}

impl Default for Align {
    fn default() -> (r: Align)
        ensures
            r == Align::Center,
    {
        Align::Center
    }
}

/// What `Debug` makes of a string: its characters in double quotes, with the
/// escapes that std chooses.
pub uninterp spec fn quoted(s: Seq<char>) -> Seq<char>;

/// `<str as Debug>::fmt`, through `format!`. Its result is a function of the
/// string alone; what it escapes and how is not stated.
#[verifier::external_body]
pub(crate) fn debug_text(s: &str) -> (r: String)
    ensures
        r@ == quoted(s@),
{
    format!("{s:?}")
}

/// The alignment a word names.
pub open spec fn alignment(s: Seq<char>) -> Option<Align> {
    if s == "center"@ || s == "centre"@ {
        Some(Align::Center)
    } else if s == "left"@ {
        Some(Align::Left)
    } else {
        None
    }
}

/// What is said of a word that names no alignment.
pub open spec fn unknown_alignment(s: Seq<char>) -> Seq<char> {
    "unknown alignment "@ + quoted(s) + " (expected center or left)"@
}

impl Align {
    /// The alignment a word names.
    pub fn parse(s: &str) -> (r: Result<Align, String>)
        ensures
            match r {
                Ok(align) => alignment(s@) == Some(align),
                Err(e) => alignment(s@) is None && e@ == unknown_alignment(s@),
            },
    {
        if chars::same_text(s, "center") || chars::same_text(s, "centre") {
            Ok(Align::Center)
        } else if chars::same_text(s, "left") {
            Ok(Align::Left)
        } else {
            let mut e = "unknown alignment ".to_owned();
            let shown = debug_text(s);
            chars::push_text(&mut e, shown.as_str());
            chars::push_text(&mut e, " (expected center or left)");
            Err(e)
        }
    }
}

impl std::str::FromStr for Align {
    type Err = String;

    fn from_str(s: &str) -> (r: Result<Align, String>)
        ensures
            match r {
                Ok(align) => alignment(s@) == Some(align),
                Err(e) => alignment(s@) is None && e@ == unknown_alignment(s@),
            },
    {
        Align::parse(s)
    }
}

/// One entry from the quote list.
#[derive(PartialEq, Eq, Debug)]
pub struct Quote {
    pub text: String,
    pub attribution: Option<String>,
}

/// What a quote says, and who it is attributed to.
pub struct QuoteView {
    pub text: Seq<char>,
    pub attribution: Option<Seq<char>>,
}

impl View for Quote {
    type V = QuoteView;

    open spec fn view(&self) -> QuoteView {
        QuoteView {
            text: self.text@,
            attribution: match self.attribution {
                Some(a) => Some(a@),
                None => None,
            },
        }
    }
}

impl Clone for Quote {
    fn clone(&self) -> (r: Quote)
        ensures
            r@ == self@,
    {
        let attribution = match &self.attribution {
            Some(a) => Some(a.clone()),
            None => None,
        };
        Quote { text: self.text.clone(), attribution }
    }
}

/// The typographic settings a block is set with.
#[derive(PartialEq, Eq, Debug)]
pub struct Measure {
    /// Wrap width in columns.
    pub width: usize,
    pub align: Align,
    /// What an attribution line opens with, once it has been moved off the end
    /// of the quote. Separate from the separator that *split* it: a list can
    /// use `|` as its field separator and still want a dash on screen.
    pub attribution_prefix: String,
}

/// What a [`Measure`] says.
pub struct MeasureView {
    pub width: usize,
    pub align: Align,
    pub attribution_prefix: Seq<char>,
}

impl View for Measure {
    type V = MeasureView;

    open spec fn view(&self) -> MeasureView {
        MeasureView {
            width: self.width,
            align: self.align,
            attribution_prefix: self.attribution_prefix@,
        }
    }
}

impl Clone for Measure {
    fn clone(&self) -> (r: Measure)
        ensures
            r@ == self@,
    {
        Measure {
            width: self.width,
            align: self.align,
            attribution_prefix: self.attribution_prefix.clone(),
        }
    }
}

/// Whether a trimmed line of a quote list is an entry: not blank, and not a
/// `#` comment.
pub open spec fn is_entry(line: Seq<char>) -> bool {
    line.len() > 0 && line[0] != '#'
}

/// The quote on a trimmed line: what stands before the last separator, and the
/// attribution after it. Without a separator the whole line is the quotation.
pub open spec fn quote_of(line: Seq<char>, separator: Seq<char>) -> QuoteView {
    if separator.len() == 0 {
        QuoteView { text: line, attribution: None }
    } else {
        match last_occurrence(line, separator, line.len() as int) {
            Some(i) => {
                let credit = trimmed(line.skip(i + separator.len()));
                QuoteView {
                    text: trimmed_end(line.take(i)),
                    attribution: if credit.len() == 0 {
                        None
                    } else {
                        Some(credit)
                    },
                }
            },
            None => QuoteView { text: line, attribution: None },
        }
    }
}

/// The quotes on a sequence of lines.
pub open spec fn quotes_on(lines: Seq<Seq<char>>, separator: Seq<char>) -> Seq<QuoteView>
    decreases lines.len(),
{
    if lines.len() == 0 {
        Seq::empty()
    } else {
        let before = quotes_on(lines.drop_last(), separator);
        let line = trimmed(lines.last());
        if is_entry(line) {
            before.push(quote_of(line, separator))
        } else {
            before
        }
    }
}

/// What a list of quotes says.
pub open spec fn quote_views(quotes: Seq<Quote>) -> Seq<QuoteView> {
    quotes.map_values(|q: Quote| q@)
}

/// The quote on a trimmed line.
fn parse_quote(line: &[char], separator: &[char]) -> (q: Quote)
    ensures
        q@ == quote_of(line@, separator@),
{
    if separator.len() == 0 {
        return Quote { text: chars::to_text(line), attribution: None };
    }
    let len: usize = line.len();
    match chars::find_last(line, separator) {
        Some(i) => {
            let text = vstd::slice::slice_subrange(line, 0, i);
            let credit = vstd::slice::slice_subrange(line, i + separator.len(), len);
            proof {
                assert(text@ =~= line@.take(i as int));
                assert(credit@ =~= line@.skip(i + separator@.len()));
            }
            let credit = chars::trim(credit);
            let attribution = if credit.len() == 0 {
                None
            } else {
                Some(chars::to_text(credit))
            };
            Quote { text: chars::to_text(chars::trim_end(text)), attribution }
        },
        None => Quote { text: chars::to_text(line), attribution: None },
    }
}

/// Split a quote list into entries.
///
/// Blank lines and `#` comments are dropped, so a long list can be sectioned
/// and annotated. The separator is matched from the right: several quotes in
/// any real list contain the separator inside the quotation itself, and the
/// attribution is always the last field.
pub fn parse_quotes(contents: &str, separator: &str) -> (quotes: Vec<Quote>)
    ensures
        quote_views(quotes@) == quotes_on(lines(contents@), separator@),
{
    let separator_chars = chars::to_chars(separator);
    let content_chars = chars::to_chars(contents);
    let cut = chars::split_lines(content_chars.as_slice());
    let ghost all = lines(contents@);
    let mut quotes: Vec<Quote> = Vec::new();
    let mut i: usize = 0;
    proof {
        assert(quote_views(quotes@) =~= quotes_on(all.take(0), separator@));
    }
    while i < cut.len()
        invariant
            i <= cut@.len(),
            texts(cut@) == all,
            separator_chars@ == separator@,
            quote_views(quotes@) == quotes_on(all.take(i as int), separator@),
        decreases cut@.len() - i,
    {
        let line = chars::trim(cut[i].as_slice());
        let ghost before = quotes@;
        proof {
            assert(all.take(i + 1).drop_last() =~= all.take(i as int));
            assert(all.take(i + 1).last() == cut@[i as int]@);
        }
        if line.len() > 0 && line[0] != '#' {
            quotes.push(parse_quote(line, separator_chars.as_slice()));
            proof {
                assert(quote_views(quotes@) =~= quote_views(before).push(quotes@.last()@));
            }
        }
        i += 1;
    }
    proof {
        assert(all.take(i as int) =~= all);
    }
    quotes
}

/// A word cut into pieces no longer than the width: full pieces, and what is
/// left over.
pub open spec fn pieces_of(word: Seq<char>, width: nat) -> Seq<Seq<char>>
    decreases word.len(),
{
    if word.len() <= width || width == 0 {
        seq![word]
    } else {
        seq![word.take(width as int)] + pieces_of(word.skip(width as int), width)
    }
}

/// Every word in pieces no longer than the width, in order.
pub open spec fn pieces(words: Seq<Seq<char>>, width: nat) -> Seq<Seq<char>>
    decreases words.len(),
{
    if words.len() == 0 {
        Seq::empty()
    } else {
        pieces(words.drop_last(), width) + pieces_of(words.last(), width)
    }
}

/// Pieces set in lines, greedily: a piece goes on the last line, after a
/// space, if it still fits there, and opens a line otherwise.
pub open spec fn filled(pieces: Seq<Seq<char>>, width: nat) -> Seq<Seq<char>>
    decreases pieces.len(),
{
    if pieces.len() == 0 {
        Seq::empty()
    } else {
        let before = filled(pieces.drop_last(), width);
        let piece = pieces.last();
        if before.len() > 0 && before.last().len() + 1 + piece.len() <= width {
            before.drop_last().push(before.last() + seq![' '] + piece)
        } else {
            before.push(piece)
        }
    }
}

/// The width that text is wrapped to: at least one column.
pub open spec fn wrap_width(width: usize) -> nat {
    if width == 0 {
        1
    } else {
        width as nat
    }
}

/// A text wrapped to a width. A text without words is one empty line.
pub open spec fn wrapped(text: Seq<char>, width: usize) -> Seq<Seq<char>> {
    let lines = filled(pieces(words(text), wrap_width(width)), wrap_width(width));
    if lines.len() == 0 {
        seq![Seq::empty()]
    } else {
        lines
    }
}

/// Whether the closed lines and the open one are the pieces set so far. A full
/// line counts as closed although nothing has followed it yet.
spec fn is_set(
    lines: Seq<Seq<char>>,
    current: Seq<char>,
    done: Seq<Seq<char>>,
    width: nat,
) -> bool {
    &&& filled(done, width) == if current.len() > 0 {
        lines.push(current)
    } else {
        lines
    }
    &&& current.len() == 0 && lines.len() > 0 ==> lines.last().len() >= width
}

/// Close the open line, if there is one.
fn close_line(lines: &mut Vec<String>, current: &mut Vec<char>)
    ensures
        final(current)@.len() == 0,
        strings(final(lines)@) == if old(current)@.len() > 0 {
            strings(old(lines)@).push(old(current)@)
        } else {
            strings(old(lines)@)
        },
{
    if current.len() > 0 {
        let ghost before = lines@;
        lines.push(chars::to_text(current.as_slice()));
        proof {
            assert(strings(lines@) =~= strings(before).push(current@));
        }
        current.clear();
    }
}

/// Greedy word wrap. Words longer than the measure are broken rather than
/// allowed to widen the block: a URL in a quote should not push the whole
/// paragraph off the side of the screen.
pub fn wrap(text: &str, width: usize) -> (r: Vec<String>)
    ensures
        strings(r@) == wrapped(text@, width),
{
    let width: usize = if width == 0 {
        1
    } else {
        width
    };
    let ghost w = width as nat;
    let text_chars = chars::to_chars(text);
    let all = chars::split_words(text_chars.as_slice());
    let ghost each = words(text@);
    let mut lines: Vec<String> = Vec::new();
    let mut current: Vec<char> = Vec::new();
    let ghost mut done: Seq<Seq<char>> = Seq::empty();
    let mut i: usize = 0;
    proof {
        assert(strings(lines@) =~= filled(done, w));
        assert(done =~= pieces(each.take(0), w));
    }
    while i < all.len()
        invariant
            i <= all@.len(),
            texts(all@) == each,
            each == words(text@),
            w == width,
            w > 0,
            done == pieces(each.take(i as int), w),
            is_set(strings(lines@), current@, done, w),
        decreases all@.len() - i,
    {
        let word = all[i].as_slice();
        let ghost goal = pieces(each.take(i + 1), w);
        let mut k: usize = 0;
        proof {
            assert(each.take(i + 1).drop_last() =~= each.take(i as int));
            assert(word@.skip(0) =~= word@);
            lemma_words_nonempty(text@);
            assert(word@ == each[i as int]);
        }
        while word.len() - k > width
            invariant
                k < word@.len(),
                w == width,
                w > 0,
                goal == done + pieces_of(word@.skip(k as int), w),
                is_set(strings(lines@), current@, done, w),
            decreases word@.len() - k,
        {
            close_line(&mut lines, &mut current);
            let head = vstd::slice::slice_subrange(word, k, k + width);
            let ghost rest = word@.skip(k as int);
            let ghost before = lines@;
            lines.push(chars::to_text(head));
            proof {
                assert(head@ =~= rest.take(w as int));
                assert(rest.skip(w as int) =~= word@.skip(k + width));
                assert(goal =~= done.push(head@) + pieces_of(word@.skip(k + width), w));
                assert(strings(lines@) =~= strings(before).push(head@));
                assert(done.push(head@).drop_last() =~= done);
                done = done.push(head@);
            }
            k += width;
        }
        let tail = vstd::slice::slice_subrange(word, k, word.len());
        let n: usize = tail.len();
        proof {
            assert(tail@ =~= word@.skip(k as int));
            assert(goal =~= done.push(tail@));
            assert(done.push(tail@).drop_last() =~= done);
        }
        let ghost held = current@;
        let ghost closed = strings(lines@);
        if current.len() > 0 && !(n < width && current.len() < width - n) {
            close_line(&mut lines, &mut current);
        }
        if current.len() > 0 {
            current.push(' ');
            proof {
                assert(closed.push(held).drop_last() =~= closed);
            }
        }
        append(&mut current, tail);
        proof {
            if held.len() > 0 && held.len() + 1 + n <= w {
                assert(current@ =~= held + seq![' '] + tail@);
            } else {
                assert(current@ =~= tail@);
            }
            done = done.push(tail@);
            assert(is_set(strings(lines@), current@, done, w));
        }
        i += 1;
    }
    proof {
        assert(each.take(i as int) =~= each);
    }
    close_line(&mut lines, &mut current);
    if lines.len() == 0 {
        lines.push(String::new());
        proof {
            assert(strings(lines@) =~= seq![Seq::empty()]);
        }
    }
    lines
}

/// Append a run of characters.
fn append(out: &mut Vec<char>, s: &[char])
    ensures
        final(out)@ == old(out)@ + s@,
{
    let mut i: usize = 0;
    while i < s.len()
        invariant
            i <= s@.len(),
            out@ == old(out)@ + s@.take(i as int),
        decreases s@.len() - i,
    {
        out.push(s[i]);
        i += 1;
        proof {
            assert(s@.take(i as int) =~= s@.take(i - 1).push(s@[i - 1]));
        }
    }
    proof {
        assert(s@.take(i as int) =~= s@);
    }
}

/// Words are not empty and hold no white space.
pub proof fn lemma_words_nonempty(s: Seq<char>)
    ensures
        forall|i: int| 0 <= i < words(s).len() ==> (#[trigger] words(s)[i]).len() > 0,
        forall|i: int, j: int|
            0 <= i < words(s).len() && 0 <= j < words(s)[i].len() ==> !chars::is_white_space(
                #[trigger] words(s)[i][j],
            ),
        s.len() > 0 && !chars::is_white_space(s.last()) ==> words(s).len() > 0,
    decreases s.len(),
{
    if s.len() > 0 {
        let head = s.drop_last();
        let before = words(head);
        let all = words(s);
        lemma_words_nonempty(head);
        assert forall|i: int| 0 <= i < all.len() implies (#[trigger] all[i]).len() > 0 && forall|
            j: int,
        |
            0 <= j < all[i].len() ==> !chars::is_white_space(#[trigger] all[i][j]) by {
            if i < before.len() && all[i] == before[i] {
                assert(before[i].len() > 0);
            } else if head.len() > 0 && !chars::is_white_space(head.last()) {
                let held = before.last();
                assert(held == before[before.len() - 1]);
                assert(all[i] == held.push(s.last()));
                assert forall|j: int| 0 <= j < all[i].len() implies !chars::is_white_space(
                    #[trigger] all[i][j],
                ) by {
                    if j < held.len() {
                        assert(all[i][j] == held[j]);
                    }
                }
            } else {
                assert(all[i] == seq![s.last()]);
            }
        }
    }
}

/// The length of the longest line.
pub open spec fn widest(lines: Seq<Seq<char>>) -> nat
    decreases lines.len(),
{
    if lines.len() == 0 {
        0
    } else {
        let before = widest(lines.drop_last());
        if lines.last().len() > before {
            lines.last().len()
        } else {
            before
        }
    }
}

/// Lines with a newline between each two.
pub open spec fn joined(lines: Seq<Seq<char>>) -> Seq<char>
    decreases lines.len(),
{
    if lines.len() == 0 {
        Seq::empty()
    } else if lines.len() == 1 {
        lines[0]
    } else {
        joined(lines.drop_last()).push('\n') + lines.last()
    }
}

/// A run of spaces.
pub open spec fn spaces(n: nat) -> Seq<char> {
    Seq::new(n, |i: int| ' ')
}

/// A line set in a block of a given width. Centred lines are padded on the
/// left only: the engine fills the rest of the canvas itself, and real
/// trailing spaces would widen the block.
pub open spec fn padded(line: Seq<char>, block: nat, align: Align) -> Seq<char> {
    match align {
        Align::Center => spaces(((block - line.len()) / 2) as nat) + line,
        Align::Left => line,
    }
}

/// Every line set in a block as wide as the longest of them.
pub open spec fn padded_lines(lines: Seq<Seq<char>>, align: Align) -> Seq<Seq<char>> {
    lines.map_values(|line: Seq<char>| padded(line, widest(lines), align))
}

/// Lines set as a block.
pub open spec fn aligned(lines: Seq<Seq<char>>, align: Align) -> Seq<char> {
    joined(padded_lines(lines, align))
}

/// No line is longer than the longest.
proof fn lemma_widest(lines: Seq<Seq<char>>)
    ensures
        forall|i: int| 0 <= i < lines.len() ==> (#[trigger] lines[i]).len() <= widest(lines),
        lines.len() > 0 ==> exists|i: int|
            0 <= i < lines.len() && (#[trigger] lines[i]).len() == widest(lines),
    decreases lines.len(),
{
    if lines.len() > 0 {
        let head = lines.drop_last();
        lemma_widest(head);
        assert forall|i: int| 0 <= i < lines.len() implies (#[trigger] lines[i]).len() <= widest(
            lines,
        ) by {
            if i < head.len() {
                assert(head[i] == lines[i]);
            }
        }
        if lines.last().len() > widest(head) || head.len() == 0 {
            assert(lines[lines.len() - 1].len() == widest(lines));
        } else {
            let i = choose|i: int|
                0 <= i < head.len() && (#[trigger] head[i]).len() == widest(head);
            assert(lines[i] == head[i]);
        }
    }
}

/// Pad lines into a block. Centring happens here rather than being left to the
/// engine's canvas anchor: the engine centres the block, and this centres the
/// lines within it, and only both together read as centred text.
pub fn align(lines: &[String], how: Align) -> (out: String)
    ensures
        out@ == aligned(strings(lines@), how),
{
    let ghost all = strings(lines@);
    let mut block: usize = 0;
    let mut i: usize = 0;
    proof {
        assert(all.take(0) =~= Seq::empty());
    }
    while i < lines.len()
        invariant
            i <= lines@.len(),
            all == strings(lines@),
            block == widest(all.take(i as int)),
        decreases lines@.len() - i,
    {
        let len: usize = chars::char_count(lines[i].as_str());
        proof {
            assert(all.take(i + 1).drop_last() =~= all.take(i as int));
            assert(all.take(i + 1).last() == lines@[i as int]@);
        }
        if len > block {
            block = len;
        }
        i += 1;
    }
    let ghost set = padded_lines(all, how);
    proof {
        assert(all.take(i as int) =~= all);
        lemma_widest(all);
        assert(set.take(0) =~= Seq::empty());
    }
    let mut out = String::new();
    let mut i: usize = 0;
    while i < lines.len()
        invariant
            i <= lines@.len(),
            all == strings(lines@),
            set == padded_lines(all, how),
            block == widest(all),
            forall|k: int| 0 <= k < all.len() ==> (#[trigger] all[k]).len() <= block,
            out@ == joined(set.take(i as int)),
        decreases lines@.len() - i,
    {
        let ghost before = out@;
        if i > 0 {
            out.push('\n');
        }
        let ghost opened = out@;
        proof {
            assert(all[i as int] == lines@[i as int]@);
        }
        if how == Align::Center {
            let len: usize = chars::char_count(lines[i].as_str());
            let pad: usize = (block - len) / 2;
            let mut k: usize = 0;
            while k < pad
                invariant
                    k <= pad,
                    out@ == opened + spaces(k as nat),
                decreases pad - k,
            {
                out.push(' ');
                k += 1;
                proof {
                    assert(out@ =~= opened + spaces(k as nat));
                }
            }
        }
        chars::push_text(&mut out, lines[i].as_str());
        proof {
            let line = padded(all[i as int], block as nat, how);
            assert(set[i as int] == line);
            assert(out@ =~= opened + line);
            assert(set.take(i + 1).drop_last() =~= set.take(i as int));
            assert(set.take(i + 1).last() == line);
            assert(out@ =~= joined(set.take(i + 1)));
        }
        i += 1;
    }
    proof {
        assert(set.take(i as int) =~= set);
    }
    out
}

/// A quote set in lines: the quotation wrapped to the measure, then a blank
/// line, then the attribution, opened by the prefix.
pub open spec fn quote_lines(quote: QuoteView, width: usize, prefix: Seq<char>) -> Seq<
    Seq<char>,
> {
    match quote.attribution {
        Some(a) => wrapped(quote.text, width).push(Seq::empty()) + wrapped(prefix + a, width),
        None => wrapped(quote.text, width),
    }
}

/// A quote set as a block.
pub open spec fn quote_block(quote: QuoteView, measure: MeasureView) -> Seq<char> {
    aligned(quote_lines(quote, measure.width, measure.attribution_prefix), measure.align)
}

/// Set a quote as a block: the quotation wrapped to the measure, then a blank
/// line, then the attribution on a line of its own.
pub fn layout_quote(quote: &Quote, measure: &Measure) -> (block: String)
    ensures
        block@ == quote_block(quote@, measure@),
{
    let mut lines = wrap(quote.text.as_str(), measure.width);
    if let Some(attribution) = &quote.attribution {
        let mut credit = measure.attribution_prefix.clone();
        chars::push_text(&mut credit, attribution.as_str());
        let ghost before = strings(lines@);
        lines.push(String::new());
        let mut tail = wrap(credit.as_str(), measure.width);
        let ghost added = strings(tail@);
        lines.append(&mut tail);
        proof {
            assert(strings(lines@) =~= before.push(Seq::empty()) + added);
        }
    }
    align(lines.as_slice(), measure.align)
}

/// A text without the newlines at its end.
pub open spec fn without_newlines(s: Seq<char>) -> Seq<char>
    decreases s.len(),
{
    if s.len() > 0 && s.last() == '\n' {
        without_newlines(s.drop_last())
    } else {
        s
    }
}

/// Lines of a text set to a width: blank ones stay blank lines, and the others
/// are wrapped, each on its own.
pub open spec fn text_lines(lines: Seq<Seq<char>>, width: usize) -> Seq<Seq<char>>
    decreases lines.len(),
{
    if lines.len() == 0 {
        Seq::empty()
    } else {
        let before = text_lines(lines.drop_last(), width);
        let line = lines.last();
        if trimmed(line).len() == 0 {
            before.push(Seq::empty())
        } else {
            before + wrapped(line, width)
        }
    }
}

/// A plain text set as a block.
pub open spec fn text_block(text: Seq<char>, measure: MeasureView) -> Seq<char> {
    aligned(text_lines(lines(without_newlines(text)), measure.width), measure.align)
}

/// Set a plain block of text: existing line breaks are honoured, and any line
/// longer than the measure is wrapped.
pub fn layout_text(text: &str, measure: &Measure) -> (block: String)
    ensures
        block@ == text_block(text@, measure@),
{
    let text_chars = chars::to_chars(text);
    let mut end: usize = text_chars.len();
    proof {
        assert(text@.take(end as int) =~= text@);
    }
    while end > 0 && text_chars[end - 1] == '\n'
        invariant
            text_chars@ == text@,
            end <= text@.len(),
            without_newlines(text@) == without_newlines(text@.take(end as int)),
        decreases end,
    {
        proof {
            assert(text@.take(end as int).drop_last() =~= text@.take(end - 1));
        }
        end -= 1;
    }
    let kept = vstd::slice::slice_subrange(text_chars.as_slice(), 0, end);
    proof {
        assert(kept@ =~= text@.take(end as int));
        assert(kept@ == without_newlines(text@));
    }
    let cut = chars::split_lines(kept);
    let ghost all = lines(kept@);
    let mut out: Vec<String> = Vec::new();
    let mut i: usize = 0;
    proof {
        assert(strings(out@) =~= text_lines(all.take(0), measure.width));
    }
    while i < cut.len()
        invariant
            i <= cut@.len(),
            texts(cut@) == all,
            strings(out@) == text_lines(all.take(i as int), measure.width),
        decreases cut@.len() - i,
    {
        let line = cut[i].as_slice();
        let ghost before = strings(out@);
        proof {
            assert(all.take(i + 1).drop_last() =~= all.take(i as int));
            assert(all.take(i + 1).last() == line@);
        }
        if chars::trim(line).len() == 0 {
            out.push(String::new());
            proof {
                assert(strings(out@) =~= before.push(Seq::empty()));
            }
        } else {
            let line_text = chars::to_text(line);
            let mut set = wrap(line_text.as_str(), measure.width);
            let ghost added = strings(set@);
            out.append(&mut set);
            proof {
                assert(strings(out@) =~= before + added);
            }
        }
        i += 1;
    }
    proof {
        assert(all.take(i as int) =~= all);
    }
    align(out.as_slice(), measure.align)
}

/// Where the animated text comes from. Resolved once at startup: by the time
/// this exists, every file that was going to be read has been read.
#[derive(PartialEq, Eq, Debug)]
pub enum Content {
    Quotes(Vec<Quote>),
    Text(String),
}

/// What a content says.
pub enum ContentView {
    Quotes(Seq<QuoteView>),
    Text(Seq<char>),
}

impl ContentView {
    /// How many blocks there are to choose between.
    pub open spec fn choice_count(self) -> nat {
        match self {
            ContentView::Quotes(quotes) => quotes.len(),
            ContentView::Text(_) => 0,
        }
    }
}

impl View for Content {
    type V = ContentView;

    open spec fn view(&self) -> ContentView {
        match self {
            Content::Quotes(quotes) => ContentView::Quotes(quote_views(quotes@)),
            Content::Text(text) => ContentView::Text(text@),
        }
    }
}

impl Clone for Content {
    fn clone(&self) -> (r: Content)
        ensures
            r@ == self@,
    {
        match self {
            Content::Quotes(quotes) => {
                let mut out: Vec<Quote> = Vec::new();
                let mut i: usize = 0;
                while i < quotes.len()
                    invariant
                        i <= quotes@.len(),
                        out@.len() == i,
                        forall|k: int| 0 <= k < i ==> (#[trigger] out@[k])@ == quotes@[k]@,
                    decreases quotes@.len() - i,
                {
                    out.push(quotes[i].clone());
                    i += 1;
                }
                proof {
                    assert(quote_views(out@) =~= quote_views(quotes@));
                }
                Content::Quotes(out)
            },
            Content::Text(text) => Content::Text(text.clone()),
        }
    }
}

/// What is animated where there is nothing to quote.
pub const FALLBACK_TEXT: &'static str = "nirisaver";

/// The block that a choice among the content's entries comes to.
pub open spec fn block_of(content: ContentView, choice: int, measure: MeasureView) -> Seq<char> {
    match content {
        ContentView::Quotes(quotes) => if quotes.len() > 0 {
            quote_block(quotes[choice], measure)
        } else {
            text_block(FALLBACK_TEXT@, measure)
        },
        ContentView::Text(text) => text_block(text, measure),
    }
}

impl Content {
    /// How many blocks there are to choose between: one per quote, and none
    /// where the block is always the same.
    pub fn choices(&self) -> (n: usize)
        ensures
            n == self@.choice_count(),
    {
        match self {
            Content::Quotes(quotes) => quotes.len(),
            Content::Text(_) => 0,
        }
    }

    /// The block for one cycle. Quotes draw a fresh entry each time; a custom
    /// text block is replayed as it stands.
    pub fn block(&self, choice: usize, measure: &Measure) -> (block: String)
        requires
            self@.choice_count() > 0 ==> choice < self@.choice_count(),
        ensures
            block@ == block_of(self@, choice as int, measure@),
    {
        match self {
            Content::Quotes(quotes) => {
                if quotes.len() > 0 {
                    layout_quote(&quotes[choice], measure)
                } else {
                    // An empty list is not an error at this point, since
                    // resolution already rejected the cases where it would be,
                    // so say something rather than present a blank screen.
                    layout_text(FALLBACK_TEXT, measure)
                }
            },
            Content::Text(text) => layout_text(text.as_str(), measure),
        }
    }
}

/// The pieces of a word are not empty, no longer than the width, and hold
/// nothing but the word.
proof fn lemma_pieces_of(word: Seq<char>, width: nat)
    requires
        width > 0,
        word.len() > 0,
    ensures
        forall|i: int|
            0 <= i < pieces_of(word, width).len() ==> 0 < (#[trigger] pieces_of(
                word,
                width,
            )[i]).len() <= width,
        forall|i: int, j: int|
            0 <= i < pieces_of(word, width).len() && 0 <= j < pieces_of(word, width)[i].len()
                ==> word.contains(#[trigger] pieces_of(word, width)[i][j]),
        inks(pieces_of(word, width)) == ink(word),
    decreases word.len(),
{
    let all = pieces_of(word, width);
    if word.len() <= width {
        lemma_inks_one(word);
        assert(all =~= seq![word]);
    } else {
        let head = word.take(width as int);
        let rest = word.skip(width as int);
        lemma_pieces_of(rest, width);
        assert forall|i: int| 0 <= i < all.len() implies 0 < (#[trigger] all[i]).len() <= width by {
            if i > 0 {
                assert(all[i] == pieces_of(rest, width)[i - 1]);
            }
        }
        assert forall|i: int, j: int|
            0 <= i < all.len() && 0 <= j < all[i].len() implies word.contains(
            #[trigger] all[i][j],
        ) by {
            if i > 0 {
                assert(all[i] == pieces_of(rest, width)[i - 1]);
                assert(rest.contains(all[i][j]));
                let k = choose|k: int| 0 <= k < rest.len() && rest[k] == all[i][j];
                assert(word[k + width] == all[i][j]);
            } else {
                assert(all[i][j] == word[j]);
            }
        }
        lemma_inks_add(seq![head], pieces_of(rest, width));
        lemma_inks_one(head);
        lemma_ink_add(head, rest);
        assert(head + rest =~= word);
    }
}

/// The characters of a text that are not white space, in order.
pub open spec fn ink(s: Seq<char>) -> Seq<char>
    decreases s.len(),
{
    if s.len() == 0 {
        Seq::empty()
    } else if chars::is_white_space(s.last()) {
        ink(s.drop_last())
    } else {
        ink(s.drop_last()).push(s.last())
    }
}

/// The characters of a list of lines that are not white space, in order.
pub open spec fn inks(lines: Seq<Seq<char>>) -> Seq<char>
    decreases lines.len(),
{
    if lines.len() == 0 {
        Seq::empty()
    } else {
        inks(lines.drop_last()) + ink(lines.last())
    }
}

proof fn lemma_ink_add(a: Seq<char>, b: Seq<char>)
    ensures
        ink(a + b) == ink(a) + ink(b),
    decreases b.len(),
{
    if b.len() == 0 {
        assert(a + b =~= a);
        assert(ink(a) + ink(b) =~= ink(a));
    } else {
        lemma_ink_add(a, b.drop_last());
        assert((a + b).drop_last() =~= a + b.drop_last());
        assert((a + b).last() == b.last());
        assert(ink(a + b) =~= ink(a) + ink(b));
    }
}

proof fn lemma_inks_one(s: Seq<char>)
    ensures
        inks(seq![s]) == ink(s),
{
    reveal_with_fuel(inks, 2);
    assert(seq![s].drop_last() =~= Seq::<Seq<char>>::empty());
    assert(inks(seq![s]) =~= ink(s));
}

proof fn lemma_inks_add(a: Seq<Seq<char>>, b: Seq<Seq<char>>)
    ensures
        inks(a + b) == inks(a) + inks(b),
    decreases b.len(),
{
    if b.len() == 0 {
        assert(a + b =~= a);
        assert(inks(a) + inks(b) =~= inks(a));
    } else {
        lemma_inks_add(a, b.drop_last());
        assert((a + b).drop_last() =~= a + b.drop_last());
        assert((a + b).last() == b.last());
        assert(inks(a + b) =~= inks(a) + inks(b));
    }
}

/// What every piece is: not empty, no longer than the width, no white space.
spec fn good_pieces(pieces: Seq<Seq<char>>, width: nat) -> bool {
    &&& forall|i: int| 0 <= i < pieces.len() ==> 0 < (#[trigger] pieces[i]).len() <= width
    &&& forall|i: int| 0 <= i < pieces.len() ==> no_white_space(#[trigger] pieces[i])
}

/// Whether a text holds no white space.
pub open spec fn no_white_space(s: Seq<char>) -> bool {
    forall|j: int| 0 <= j < s.len() ==> !chars::is_white_space(#[trigger] s[j])
}

proof fn lemma_pieces(all: Seq<Seq<char>>, width: nat)
    requires
        width > 0,
        forall|i: int|
            0 <= i < all.len() ==> (#[trigger] all[i]).len() > 0 && no_white_space(all[i]),
    ensures
        good_pieces(pieces(all, width), width),
        inks(pieces(all, width)) == inks(all),
        all.len() > 0 ==> pieces(all, width).len() > 0,
    decreases all.len(),
{
    if all.len() > 0 {
        let head = all.drop_last();
        let word = all.last();
        assert(all[all.len() - 1] == word);
        assert forall|i: int| 0 <= i < head.len() implies (#[trigger] head[i]).len() > 0
            && no_white_space(head[i]) by {
            assert(head[i] == all[i]);
        }
        lemma_pieces(head, width);
        lemma_pieces_of(word, width);
        lemma_inks_add(pieces(head, width), pieces_of(word, width));
        let out = pieces(all, width);
        let n = pieces(head, width).len();
        assert forall|i: int| 0 <= i < out.len() implies 0 < (#[trigger] out[i]).len() <= width
            && no_white_space(out[i]) by {
            if i < n {
                assert(out[i] == pieces(head, width)[i]);
            } else {
                let piece = pieces_of(word, width)[i - n];
                assert(out[i] == piece);
                assert forall|j: int| 0 <= j < piece.len() implies !chars::is_white_space(
                    #[trigger] piece[j],
                ) by {
                    assert(word.contains(pieces_of(word, width)[i - n][j]));
                    let k = choose|k: int| 0 <= k < word.len() && word[k] == piece[j];
                    assert(!chars::is_white_space(word[k]));
                }
            }
        }
    }
}

proof fn lemma_words_ink(s: Seq<char>)
    ensures
        inks(words(s)) == ink(s),
    decreases s.len(),
{
    if s.len() > 0 {
        let head = s.drop_last();
        let before = words(head);
        let c = s.last();
        lemma_words_ink(head);
        lemma_words_nonempty(head);
        if !chars::is_white_space(c) {
            if head.len() > 0 && !chars::is_white_space(head.last()) {
                let held = before.last();
                let all = before.drop_last().push(held.push(c));
                assert(all.drop_last() =~= before.drop_last());
                assert(held.push(c).drop_last() =~= held);
                assert(inks(all) =~= ink(s));
            } else {
                let all = before.push(seq![c]);
                assert(all.drop_last() =~= before);
                assert(seq![c].drop_last() =~= Seq::<char>::empty());
                reveal_with_fuel(ink, 2);
                assert(ink(seq![c]) =~= seq![c]);
                assert(inks(all) =~= ink(s));
            }
        }
    }
}

/// What every line is: not empty, no longer than the width, without a newline.
spec fn good_lines(lines: Seq<Seq<char>>, width: nat) -> bool {
    &&& forall|i: int| 0 <= i < lines.len() ==> 0 < (#[trigger] lines[i]).len() <= width
    &&& forall|i: int| 0 <= i < lines.len() ==> one_line(#[trigger] lines[i])
}

/// Whether a text holds no newline.
pub open spec fn one_line(s: Seq<char>) -> bool {
    forall|j: int| 0 <= j < s.len() ==> #[trigger] s[j] != '\n'
}

proof fn lemma_filled(all: Seq<Seq<char>>, width: nat)
    requires
        good_pieces(all, width),
    ensures
        good_lines(filled(all, width), width),
        inks(filled(all, width)) == inks(all),
        all.len() > 0 ==> filled(all, width).len() > 0,
    decreases all.len(),
{
    if all.len() > 0 {
        let head = all.drop_last();
        let piece = all.last();
        assert(all[all.len() - 1] == piece);
        assert(no_white_space(piece) && 0 < piece.len() <= width);
        assert(good_pieces(head, width)) by {
            assert forall|i: int| 0 <= i < head.len() implies 0 < (#[trigger] head[i]).len()
                <= width && no_white_space(head[i]) by {
                assert(head[i] == all[i]);
                assert(no_white_space(all[i]));
            }
        }
        lemma_filled(head, width);
        let before = filled(head, width);
        let out = filled(all, width);
        assert(one_line(piece)) by {
            assert forall|j: int| 0 <= j < piece.len() implies #[trigger] piece[j] != '\n' by {
                assert(!chars::is_white_space(piece[j]));
            }
        }
        if before.len() > 0 && before.last().len() + 1 + piece.len() <= width {
            let held = before.last();
            assert(before[before.len() - 1] == held);
            assert(one_line(held));
            let line = held + seq![' '] + piece;
            assert(one_line(line)) by {
                assert forall|j: int| 0 <= j < line.len() implies #[trigger] line[j] != '\n' by {
                    if j < held.len() {
                        assert(line[j] == held[j]);
                    } else if j > held.len() {
                        assert(line[j] == piece[j - held.len() - 1]);
                    }
                }
            }
            assert(out.drop_last() =~= before.drop_last());
            lemma_ink_add(held + seq![' '], piece);
            assert((held + seq![' ']).drop_last() =~= held);
            assert(inks(out) =~= inks(before) + ink(piece));
            assert(good_lines(out, width)) by {
                assert forall|i: int| 0 <= i < out.len() implies 0 < (#[trigger] out[i]).len()
                    <= width && one_line(out[i]) by {
                    if i < before.len() - 1 {
                        assert(out[i] == before[i]);
                        assert(one_line(before[i]));
                    }
                }
            }
        } else {
            assert(out.drop_last() =~= before);
            assert(good_lines(out, width)) by {
                assert forall|i: int| 0 <= i < out.len() implies 0 < (#[trigger] out[i]).len()
                    <= width && one_line(out[i]) by {
                    if i < before.len() {
                        assert(out[i] == before[i]);
                        assert(one_line(before[i]));
                    }
                }
            }
        }
    }
}

/// Everything about a wrapped text in one place.
proof fn lemma_wrapped(text: Seq<char>, width: usize)
    ensures
        wrapped(text, width).len() > 0,
        forall|i: int|
            0 <= i < wrapped(text, width).len() ==> (#[trigger] wrapped(text, width)[i]).len()
                <= wrap_width(width) && one_line(wrapped(text, width)[i]),
        inks(wrapped(text, width)) == ink(text),
{
    let w = wrap_width(width);
    lemma_words_nonempty(text);
    lemma_words_ink(text);
    let all = words(text);
    assert forall|i: int| 0 <= i < all.len() implies (#[trigger] all[i]).len() > 0
        && no_white_space(all[i]) by {
        let word = all[i];
        assert forall|j: int| 0 <= j < word.len() implies !chars::is_white_space(
            #[trigger] word[j],
        ) by {
            assert(!chars::is_white_space(words(text)[i][j]));
        }
    }
    lemma_pieces(all, w);
    let ps = pieces(all, w);
    lemma_filled(ps, w);
    if filled(ps, w).len() == 0 {
        lemma_inks_one(Seq::empty());
        assert(inks(all) =~= Seq::<char>::empty());
    } else {
        assert forall|i: int| 0 <= i < filled(ps, w).len() implies (#[trigger] filled(
            ps,
            w,
        )[i]).len() <= w && one_line(filled(ps, w)[i]) by {}
    }
}

/// Wrapping respects the measure: no line is longer than the width (than one
/// column, for a width of zero).
pub proof fn wrapping_respects_the_measure(text: Seq<char>, width: usize, i: int)
    requires
        0 <= i < wrapped(text, width).len(),
    ensures
        wrapped(text, width)[i].len() <= wrap_width(width),
{
    lemma_wrapped(text, width);
}

/// Wrapping loses nothing and adds nothing but white space: the other
/// characters come out in the order they went in.
pub proof fn wrapping_keeps_the_ink(text: Seq<char>, width: usize)
    ensures
        inks(wrapped(text, width)) == ink(text),
{
    lemma_wrapped(text, width);
}

/// Cutting at newlines undoes joining with newlines.
pub proof fn lemma_fields_joined(all: Seq<Seq<char>>)
    requires
        all.len() > 0,
        forall|i: int| 0 <= i < all.len() ==> one_line(#[trigger] all[i]),
    ensures
        fields(joined(all), '\n') == all,
    decreases all.len(),
{
    let last = all.last();
    assert(all[all.len() - 1] == last);
    if all.len() == 1 {
        chars::lemma_fields_append(Seq::empty(), last, '\n');
        assert(Seq::<char>::empty() + last =~= last);
        assert(fields(last, '\n') =~= all);
    } else {
        let head = all.drop_last();
        assert forall|i: int| 0 <= i < head.len() implies one_line(#[trigger] head[i]) by {
            assert(head[i] == all[i]);
            assert(one_line(all[i]));
        }
        lemma_fields_joined(head);
        let opened = joined(head).push('\n');
        assert(opened.drop_last() =~= joined(head));
        assert(fields(opened, '\n') == head.push(Seq::empty()));
        chars::lemma_fields_append(opened, last, '\n');
        assert(fields(joined(all), '\n') =~= all);
    }
}

/// Left alignment pads nothing: the block is the lines themselves.
pub proof fn left_alignment_pads_nothing(all: Seq<Seq<char>>)
    ensures
        aligned(all, Align::Left) == joined(all),
{
    assert(padded_lines(all, Align::Left) =~= all);
}

/// Centring pads only on the left: each line of a block is the line it was
/// made from after a run of spaces, and reaches no further right than the
/// longest.
pub proof fn centring_pads_only_on_the_left(all: Seq<Seq<char>>, i: int)
    requires
        forall|k: int| 0 <= k < all.len() ==> one_line(#[trigger] all[k]),
        0 <= i < all.len(),
    ensures
        fields(aligned(all, Align::Center), '\n').len() == all.len(),
        fields(aligned(all, Align::Center), '\n')[i] == spaces(
            ((widest(all) - all[i].len()) / 2) as nat,
        ) + all[i],
        fields(aligned(all, Align::Center), '\n')[i].len() <= widest(all),
{
    lemma_aligned_fields(all, Align::Center);
    lemma_widest(all);
}

/// The lines of a block are the padded lines, none longer than the longest.
proof fn lemma_aligned_fields(all: Seq<Seq<char>>, how: Align)
    requires
        all.len() > 0,
        forall|k: int| 0 <= k < all.len() ==> one_line(#[trigger] all[k]),
    ensures
        fields(aligned(all, how), '\n') == padded_lines(all, how),
        forall|k: int|
            0 <= k < all.len() ==> (#[trigger] padded_lines(all, how)[k]).len() <= widest(all),
{
    let set = padded_lines(all, how);
    lemma_widest(all);
    assert forall|k: int| 0 <= k < set.len() implies one_line(#[trigger] set[k])
        && set[k].len() <= widest(all) by {
        let line = all[k];
        let pad = ((widest(all) - line.len()) / 2) as nat;
        assert(one_line(line));
        assert(line.len() <= widest(all));
        assert forall|j: int| 0 <= j < set[k].len() implies #[trigger] set[k][j] != '\n' by {
            match how {
                Align::Center => {
                    if j >= pad {
                        assert(set[k][j] == line[j - pad]);
                    }
                },
                Align::Left => {
                    assert(set[k][j] == line[j]);
                },
            }
        }
    }
    lemma_fields_joined(set);
}

/// The longest line is no longer than a bound that all lines keep to.
proof fn lemma_widest_bound(all: Seq<Seq<char>>, width: nat)
    requires
        forall|i: int| 0 <= i < all.len() ==> (#[trigger] all[i]).len() <= width,
    ensures
        widest(all) <= width,
{
    lemma_widest(all);
}

/// A quote set as a block is no wider than its measure, however it is aligned.
pub proof fn a_quote_block_is_no_wider_than_its_measure(
    quote: QuoteView,
    measure: MeasureView,
    i: int,
)
    requires
        0 <= i < fields(quote_block(quote, measure), '\n').len(),
    ensures
        fields(quote_block(quote, measure), '\n')[i].len() <= wrap_width(measure.width),
{
    let w = wrap_width(measure.width);
    let prefix = measure.attribution_prefix;
    let all = quote_lines(quote, measure.width, prefix);
    let first = wrapped(quote.text, measure.width);
    lemma_wrapped(quote.text, measure.width);
    if quote.attribution is Some {
        lemma_wrapped(prefix + quote.attribution->0, measure.width);
    }
    assert forall|k: int| 0 <= k < all.len() implies one_line(#[trigger] all[k]) && all[k].len()
        <= w by {
        if k < first.len() {
            assert(all[k] == first[k]);
        } else if k > first.len() {
            let credit = wrapped(prefix + quote.attribution->0, measure.width);
            assert(all[k] == credit[k - first.len() - 1]);
        }
    }
    lemma_aligned_fields(all, measure.align);
    lemma_widest_bound(all, w);
}

/// Lines set to a width keep to it.
proof fn lemma_text_lines(all: Seq<Seq<char>>, width: usize)
    ensures
        all.len() > 0 ==> text_lines(all, width).len() > 0,
        forall|i: int|
            0 <= i < text_lines(all, width).len() ==> (#[trigger] text_lines(all, width)[i]).len()
                <= wrap_width(width) && one_line(text_lines(all, width)[i]),
    decreases all.len(),
{
    if all.len() > 0 {
        let head = all.drop_last();
        lemma_text_lines(head, width);
        lemma_wrapped(all.last(), width);
        let before = text_lines(head, width);
        let out = text_lines(all, width);
        assert forall|i: int| 0 <= i < out.len() implies (#[trigger] out[i]).len() <= wrap_width(
            width,
        ) && one_line(out[i]) by {
            if i < before.len() {
                assert(out[i] == before[i]);
            } else if trimmed(all.last()).len() != 0 {
                assert(out[i] == wrapped(all.last(), width)[i - before.len()]);
            }
        }
    }
}

/// A text set as a block is no wider than its measure, however it is aligned.
pub proof fn a_text_block_is_no_wider_than_its_measure(
    text: Seq<char>,
    measure: MeasureView,
    i: int,
)
    requires
        0 <= i < fields(text_block(text, measure), '\n').len(),
    ensures
        fields(text_block(text, measure), '\n')[i].len() <= wrap_width(measure.width),
{
    let w = wrap_width(measure.width);
    let cut = lines(without_newlines(text));
    let all = text_lines(cut, measure.width);
    lemma_text_lines(cut, measure.width);
    if all.len() > 0 {
        assert forall|k: int| 0 <= k < all.len() implies one_line(#[trigger] all[k]) by {}
        lemma_aligned_fields(all, measure.align);
        lemma_widest_bound(all, w);
    } else {
        assert(padded_lines(all, measure.align) =~= Seq::<Seq<char>>::empty());
        assert(fields(Seq::<char>::empty(), '\n') =~= seq![Seq::<char>::empty()]);
    }
}

/// The separator is matched from the right: it stands where a line is cut, and
/// nowhere further right.
pub proof fn the_separator_is_matched_from_the_right(
    line: Seq<char>,
    separator: Seq<char>,
    n: int,
)
    ensures
        match last_occurrence(line, separator, n) {
            Some(i) => i < n && chars::occurs_at(line, separator, i) && forall|j: int|
                i < j < n ==> !#[trigger] chars::occurs_at(line, separator, j),
            None => forall|j: int| 0 <= j < n ==> !#[trigger] chars::occurs_at(line, separator, j),
        },
    decreases n,
{
    if n > 0 && !chars::occurs_at(line, separator, n - 1) {
        the_separator_is_matched_from_the_right(line, separator, n - 1);
    }
}

/// A quote splits on its separator: a quotation, the separator and an
/// attribution, in which the separator occurs nowhere further right, come back
/// apart, trimmed.
pub proof fn a_quote_splits_on_its_separator(
    quotation: Seq<char>,
    separator: Seq<char>,
    attribution: Seq<char>,
)
    requires
        separator.len() > 0,
        forall|j: int|
            quotation.len() < j ==> !#[trigger] chars::occurs_at(
                quotation + separator + attribution,
                separator,
                j,
            ),
    ensures
        quote_of(quotation + separator + attribution, separator) == (QuoteView {
            text: trimmed_end(quotation),
            attribution: if trimmed(attribution).len() == 0 {
                None
            } else {
                Some(trimmed(attribution))
            },
        }),
{
    let line = quotation + separator + attribution;
    let n = quotation.len() as int;
    the_separator_is_matched_from_the_right(line, separator, line.len() as int);
    assert(line.subrange(n, n + separator.len()) =~= separator);
    assert(chars::occurs_at(line, separator, n));
    assert(line.take(n) =~= quotation);
    assert(line.skip(n + separator.len()) =~= attribution);
}

/// Lists of lines yield their quotes one list after the other.
pub proof fn quotes_come_in_order(a: Seq<Seq<char>>, b: Seq<Seq<char>>, separator: Seq<char>)
    ensures
        quotes_on(a + b, separator) == quotes_on(a, separator) + quotes_on(b, separator),
    decreases b.len(),
{
    if b.len() == 0 {
        assert(a + b =~= a);
        assert(quotes_on(a, separator) + quotes_on(b, separator) =~= quotes_on(a, separator));
    } else {
        quotes_come_in_order(a, b.drop_last(), separator);
        assert((a + b).drop_last() =~= a + b.drop_last());
        assert((a + b).last() == b.last());
        assert(quotes_on(a + b, separator) =~= quotes_on(a, separator) + quotes_on(b, separator));
    }
}

/// Comments and blank lines are dropped: a list reads the same without them.
pub proof fn comments_and_blanks_are_dropped(
    a: Seq<Seq<char>>,
    line: Seq<char>,
    b: Seq<Seq<char>>,
    separator: Seq<char>,
)
    requires
        !is_entry(trimmed(line)),
    ensures
        quotes_on(a.push(line) + b, separator) == quotes_on(a + b, separator),
{
    quotes_come_in_order(a.push(line), b, separator);
    quotes_come_in_order(a, b, separator);
    assert(a.push(line).drop_last() =~= a);
}

/// Words with one space between each two.
pub open spec fn spaced(words: Seq<Seq<char>>) -> Seq<char>
    decreases words.len(),
{
    if words.len() == 0 {
        Seq::empty()
    } else if words.len() == 1 {
        words[0]
    } else {
        spaced(words.drop_last()).push(' ') + words.last()
    }
}

/// Whether every one of some words is a word: not empty, no white space.
pub open spec fn all_words(words: Seq<Seq<char>>) -> bool {
    forall|i: int|
        0 <= i < words.len() ==> (#[trigger] words[i]).len() > 0 && no_white_space(words[i])
}

/// A word after white space is one word more.
proof fn lemma_words_append(s: Seq<char>, word: Seq<char>)
    requires
        s.len() == 0 || chars::is_white_space(s.last()),
        word.len() > 0,
        no_white_space(word),
    ensures
        words(s + word) == words(s).push(word),
    decreases word.len(),
{
    let all = s + word;
    let head = word.drop_last();
    let c = word.last();
    assert(word[word.len() - 1] == c);
    assert(all.last() == c);
    assert(all.drop_last() =~= s + head);
    if head.len() == 0 {
        assert(s + head =~= s);
        assert(word =~= seq![c]);
    } else {
        assert forall|j: int| 0 <= j < head.len() implies !chars::is_white_space(
            #[trigger] head[j],
        ) by {
            assert(head[j] == word[j]);
        }
        lemma_words_append(s, head);
        assert((s + head).last() == head[head.len() - 1]);
        assert(words(s).push(head).drop_last() =~= words(s));
        assert(head.push(c) =~= word);
    }
}

/// Splitting words undoes spacing them.
proof fn lemma_words_spaced(all: Seq<Seq<char>>)
    requires
        all_words(all),
    ensures
        words(spaced(all)) == all,
        all.len() > 0 ==> spaced(all).len() > 0 && !chars::is_white_space(spaced(all).last()),
    decreases all.len(),
{
    if all.len() > 0 {
        let head = all.drop_last();
        let word = all.last();
        assert(all[all.len() - 1] == word);
        assert(!chars::is_white_space(word[word.len() - 1]));
        if all.len() == 1 {
            lemma_words_append(Seq::empty(), word);
            assert(Seq::<char>::empty() + word =~= word);
            assert(words(word) =~= all);
        } else {
            assert forall|i: int| 0 <= i < head.len() implies (#[trigger] head[i]).len() > 0
                && no_white_space(head[i]) by {
                assert(head[i] == all[i]);
            }
            lemma_words_spaced(head);
            let open = spaced(head).push(' ');
            assert(open.drop_last() =~= spaced(head));
            assert(words(open) == head);
            lemma_words_append(open, word);
            assert(words(spaced(all)) =~= all);
        }
    }
}

/// Words that are short enough are their own pieces.
proof fn lemma_pieces_short(all: Seq<Seq<char>>, width: nat)
    requires
        forall|i: int| 0 <= i < all.len() ==> (#[trigger] all[i]).len() <= width,
    ensures
        pieces(all, width) == all,
    decreases all.len(),
{
    if all.len() > 0 {
        let head = all.drop_last();
        assert forall|i: int| 0 <= i < head.len() implies (#[trigger] head[i]).len() <= width by {
            assert(head[i] == all[i]);
        }
        lemma_pieces_short(head, width);
        assert(all[all.len() - 1].len() <= width);
        assert(pieces(all, width) =~= all);
    } else {
        assert(pieces(all, width) =~= all);
    }
}

/// Words that fit on one line are set on one line.
proof fn lemma_filled_one(all: Seq<Seq<char>>, width: nat)
    requires
        all.len() > 0,
        spaced(all).len() <= width,
    ensures
        filled(all, width) == seq![spaced(all)],
    decreases all.len(),
{
    let head = all.drop_last();
    if all.len() == 1 {
        assert(filled(head, width) =~= Seq::<Seq<char>>::empty());
        assert(filled(all, width) =~= seq![spaced(all)]);
    } else {
        lemma_filled_one(head, width);
        let before = seq![spaced(head)];
        assert(before.last() + seq![' '] + all.last() =~= spaced(all));
        assert(filled(all, width) =~= seq![spaced(all)]);
    }
}

/// No word is longer than the line it stands on.
proof fn lemma_spaced_longest(all: Seq<Seq<char>>, i: int)
    requires
        0 <= i < all.len(),
    ensures
        all[i].len() <= spaced(all).len(),
    decreases all.len(),
{
    if all.len() > 1 && i < all.len() - 1 {
        lemma_spaced_longest(all.drop_last(), i);
        assert(all.drop_last()[i] == all[i]);
    }
}

/// Whether a line is set already: words with one space between each two, and
/// no longer than the width.
pub open spec fn is_settled(line: Seq<char>, width: nat) -> bool {
    exists|all: Seq<Seq<char>>|
        #![trigger spaced(all)]
        all.len() > 0 && all_words(all) && line == spaced(all) && line.len() <= width
}

/// A line that fits is left alone: words with single spaces between them, no
/// longer than the width, wrap to themselves.
pub proof fn a_line_that_fits_is_left_alone(line: Seq<char>, width: usize)
    requires
        is_settled(line, wrap_width(width)),
    ensures
        wrapped(line, width) == seq![line],
{
    let w = wrap_width(width);
    let all = choose|all: Seq<Seq<char>>|
        #![trigger spaced(all)]
        all.len() > 0 && all_words(all) && line == spaced(all) && line.len() <= w;
    lemma_words_spaced(all);
    assert forall|i: int| 0 <= i < all.len() implies (#[trigger] all[i]).len() <= w by {
        lemma_spaced_longest(all, i);
    }
    lemma_pieces_short(all, w);
    lemma_filled_one(all, w);
}

/// Every line of filled pieces is settled.
proof fn lemma_filled_settled(all: Seq<Seq<char>>, width: nat, i: int)
    requires
        good_pieces(all, width),
        0 <= i < filled(all, width).len(),
    ensures
        is_settled(filled(all, width)[i], width),
    decreases all.len(),
{
    let head = all.drop_last();
    let piece = all.last();
    assert(all[all.len() - 1] == piece);
    assert(0 < piece.len() <= width && no_white_space(piece));
    assert(good_pieces(head, width)) by {
        assert forall|k: int| 0 <= k < head.len() implies 0 < (#[trigger] head[k]).len() <= width
            && no_white_space(head[k]) by {
            assert(head[k] == all[k]);
            assert(no_white_space(all[k]));
        }
    }
    let before = filled(head, width);
    if before.len() > 0 && before.last().len() + 1 + piece.len() <= width {
        if i < before.len() - 1 {
            lemma_filled_settled(head, width, i);
        } else {
            lemma_filled_settled(head, width, before.len() - 1);
            let held = before.last();
            let group = choose|g: Seq<Seq<char>>|
                #![trigger spaced(g)]
                g.len() > 0 && all_words(g) && held == spaced(g) && held.len() <= width;
            let longer = group.push(piece);
            assert(longer.drop_last() =~= group);
            assert(held + seq![' '] + piece =~= spaced(longer));
            assert(all_words(longer));
        }
    } else if i < before.len() {
        lemma_filled_settled(head, width, i);
    } else {
        let group = seq![piece];
        assert(spaced(group) == piece);
        assert(all_words(group));
    }
}

/// Wrapping again changes nothing: each line of a wrapped text wraps to
/// itself.
pub proof fn wrapping_again_changes_nothing(text: Seq<char>, width: usize, i: int)
    requires
        0 <= i < wrapped(text, width).len(),
    ensures
        wrapped(wrapped(text, width)[i], width) == seq![wrapped(text, width)[i]],
{
    let w = wrap_width(width);
    lemma_words_nonempty(text);
    let all = words(text);
    assert forall|k: int| 0 <= k < all.len() implies (#[trigger] all[k]).len() > 0
        && no_white_space(all[k]) by {
        let word = all[k];
        assert forall|j: int| 0 <= j < word.len() implies !chars::is_white_space(
            #[trigger] word[j],
        ) by {
            assert(!chars::is_white_space(words(text)[k][j]));
        }
    }
    lemma_pieces(all, w);
    let ps = pieces(all, w);
    if filled(ps, w).len() > 0 {
        lemma_filled_settled(ps, w, i);
        a_line_that_fits_is_left_alone(wrapped(text, width)[i], width);
    } else {
        let empty = Seq::<char>::empty();
        assert(words(empty) =~= Seq::<Seq<char>>::empty());
        assert(pieces(words(empty), w) =~= Seq::<Seq<char>>::empty());
        assert(filled(pieces(words(empty), w), w) =~= Seq::<Seq<char>>::empty());
    }
}

/// A text that ends in anything but white space is not blank.
proof fn lemma_not_blank(s: Seq<char>)
    requires
        s.len() > 0,
        !chars::is_white_space(s.last()),
    ensures
        trimmed(s).len() > 0,
{
    assert(trimmed_end(s) == s);
    lemma_start_not_blank(s);
}

proof fn lemma_start_not_blank(s: Seq<char>)
    requires
        s.len() > 0,
        !chars::is_white_space(s.last()),
    ensures
        chars::trimmed_start(s).len() > 0,
    decreases s.len(),
{
    if chars::is_white_space(s[0]) {
        assert(s.skip(1).last() == s.last());
        lemma_start_not_blank(s.skip(1));
    }
}

/// A settled line has no newline and ends in anything but white space.
proof fn lemma_settled(line: Seq<char>, width: nat)
    requires
        is_settled(line, width),
    ensures
        line.len() > 0,
        !chars::is_white_space(line.last()),
        one_line(line),
{
    let all = choose|all: Seq<Seq<char>>|
        #![trigger spaced(all)]
        all.len() > 0 && all_words(all) && line == spaced(all) && line.len() <= width;
    lemma_words_spaced(all);
    lemma_spaced_one_line(all);
}

proof fn lemma_spaced_one_line(all: Seq<Seq<char>>)
    requires
        all_words(all),
    ensures
        one_line(spaced(all)),
    decreases all.len(),
{
    if all.len() > 0 {
        let head = all.drop_last();
        let word = all.last();
        assert(all[all.len() - 1] == word);
        assert forall|i: int| 0 <= i < head.len() implies (#[trigger] head[i]).len() > 0
            && no_white_space(head[i]) by {
            assert(head[i] == all[i]);
        }
        lemma_spaced_one_line(head);
        let line = spaced(all);
        assert forall|j: int| 0 <= j < line.len() implies #[trigger] line[j] != '\n' by {
            if all.len() == 1 {
                assert(!chars::is_white_space(word[j]));
            } else if j < spaced(head).len() {
                assert(line[j] == spaced(head)[j]);
            } else if j > spaced(head).len() {
                let k = j - spaced(head).len() - 1;
                assert(line[j] == word[k]);
                assert(!chars::is_white_space(word[k]));
            }
        }
    }
}

/// Settled and empty lines are set as they are.
proof fn lemma_text_lines_settled(all: Seq<Seq<char>>, width: usize)
    requires
        forall|i: int|
            0 <= i < all.len() ==> (#[trigger] all[i]).len() == 0 || is_settled(
                all[i],
                wrap_width(width),
            ),
    ensures
        text_lines(all, width) == all,
    decreases all.len(),
{
    if all.len() > 0 {
        let head = all.drop_last();
        let line = all.last();
        assert(all[all.len() - 1] == line);
        assert forall|i: int| 0 <= i < head.len() implies (#[trigger] head[i]).len() == 0
            || is_settled(head[i], wrap_width(width)) by {
            assert(head[i] == all[i]);
        }
        lemma_text_lines_settled(head, width);
        if line.len() > 0 {
            lemma_settled(line, wrap_width(width));
            lemma_not_blank(line);
            a_line_that_fits_is_left_alone(line, width);
        } else {
            assert(trimmed(line).len() == 0);
            assert(line =~= Seq::<char>::empty());
        }
        assert(text_lines(all, width) =~= all);
    } else {
        assert(text_lines(all, width) =~= all);
    }
}

/// A block ends as its last line does.
proof fn lemma_joined_last(all: Seq<Seq<char>>)
    requires
        all.len() > 0,
        all.last().len() > 0,
    ensures
        joined(all).len() > 0,
        joined(all).last() == all.last().last(),
{
}

/// Plain text keeps its own line breaks: lines that are set already, with or
/// without empty ones between them, come out as they went in.
pub proof fn plain_text_keeps_its_own_line_breaks(all: Seq<Seq<char>>, measure: MeasureView)
    requires
        measure.align == Align::Left,
        all.len() > 0,
        all.last().len() > 0,
        forall|i: int|
            0 <= i < all.len() ==> (#[trigger] all[i]).len() == 0 || is_settled(
                all[i],
                wrap_width(measure.width),
            ),
    ensures
        text_block(joined(all), measure) == joined(all),
{
    let w = wrap_width(measure.width);
    assert(all[all.len() - 1] == all.last());
    assert forall|i: int| 0 <= i < all.len() implies one_line(#[trigger] all[i])
        && chars::without_return(all[i]) == all[i] by {
        if all[i].len() > 0 {
            lemma_settled(all[i], w);
        }
    }
    lemma_settled(all.last(), w);
    lemma_joined_last(all);
    lemma_fields_joined(all);
    let text = joined(all);
    assert(without_newlines(text) == text);
    assert(lines(text) =~= all);
    lemma_text_lines_settled(all, measure.width);
    left_alignment_pads_nothing(all);
}

/// Words are cut at white space: two texts with white space between them have
/// the words of the one and then those of the other.
pub proof fn words_are_cut_at_white_space(a: Seq<char>, gap: char, b: Seq<char>)
    requires
        chars::is_white_space(gap),
    ensures
        words(a.push(gap) + b) == words(a) + words(b),
    decreases b.len(),
{
    let all = a.push(gap) + b;
    if b.len() == 0 {
        assert(all =~= a.push(gap));
        assert(a.push(gap).drop_last() =~= a);
        assert(words(a) + words(b) =~= words(a));
    } else {
        let head = b.drop_last();
        words_are_cut_at_white_space(a, gap, head);
        lemma_words_nonempty(head);
        assert(all.drop_last() =~= a.push(gap) + head);
        assert(all.last() == b.last());
        if head.len() == 0 {
            assert((a.push(gap) + head).last() == gap);
        } else {
            assert((a.push(gap) + head).last() == head.last());
        }
        assert(words(all) =~= words(a) + words(b));
    }
}

/// A text without white space is one word.
pub proof fn a_text_without_white_space_is_one_word(word: Seq<char>)
    requires
        word.len() > 0,
        no_white_space(word),
    ensures
        words(word) == seq![word],
{
    lemma_words_append(Seq::empty(), word);
    assert(Seq::<char>::empty() + word =~= word);
    assert(words(word) =~= seq![word]);
}

/// The measure is the width, or one column for a width of zero.
pub proof fn the_measure_is_the_width(width: usize)
    ensures
        width > 0 ==> wrap_width(width) == width,
        wrap_width(0) == 1,
{
}

/// Adding to the last line of some is adding to them all.
proof fn lemma_joined_push(all: Seq<Seq<char>>, piece: Seq<char>)
    requires
        all.len() > 0,
    ensures
        joined(all.push(piece)) == joined(all).push('\n') + piece,
        joined(all.drop_last().push(all.last() + seq![' '] + piece)) == joined(all).push(' ')
            + piece,
{
    assert(all.push(piece).drop_last() =~= all);
    let longer = all.drop_last().push(all.last() + seq![' '] + piece);
    assert(longer.drop_last() =~= all.drop_last());
    if all.len() == 1 {
        assert(joined(longer) =~= joined(all).push(' ') + piece);
    } else {
        assert(joined(longer) =~= joined(all).push(' ') + piece);
    }
}

/// Pieces without white space stay words of their own once they are set.
proof fn lemma_filled_words(all: Seq<Seq<char>>, width: nat)
    requires
        good_pieces(all, width),
    ensures
        words(joined(filled(all, width))) == all,
    decreases all.len(),
{
    if all.len() > 0 {
        let head = all.drop_last();
        let piece = all.last();
        assert(all[all.len() - 1] == piece);
        assert(no_white_space(piece) && piece.len() > 0);
        assert(good_pieces(head, width)) by {
            assert forall|i: int| 0 <= i < head.len() implies 0 < (#[trigger] head[i]).len()
                <= width && no_white_space(head[i]) by {
                assert(head[i] == all[i]);
                assert(no_white_space(all[i]));
            }
        }
        lemma_filled_words(head, width);
        lemma_filled(head, width);
        let before = filled(head, width);
        a_text_without_white_space_is_one_word(piece);
        assert(head + seq![piece] =~= all);
        if before.len() > 0 {
            lemma_joined_push(before, piece);
            words_are_cut_at_white_space(joined(before), ' ', piece);
            words_are_cut_at_white_space(joined(before), '\n', piece);
        } else {
            assert(head =~= Seq::<Seq<char>>::empty());
            assert(filled(all, width) =~= seq![piece]);
            assert(all =~= seq![piece]);
        }
    } else {
        assert(joined(filled(all, width)) =~= Seq::<char>::empty());
        assert(words(Seq::<char>::empty()) =~= all);
    }
}

/// The words of a text are words.
proof fn lemma_words_good(text: Seq<char>)
    ensures
        forall|k: int|
            0 <= k < words(text).len() ==> (#[trigger] words(text)[k]).len() > 0
                && no_white_space(words(text)[k]),
{
    lemma_words_nonempty(text);
    assert forall|k: int| 0 <= k < words(text).len() implies (#[trigger] words(text)[k]).len() > 0
        && no_white_space(words(text)[k]) by {
        let word = words(text)[k];
        assert forall|j: int| 0 <= j < word.len() implies !chars::is_white_space(
            #[trigger] word[j],
        ) by {
            assert(!chars::is_white_space(words(text)[k][j]));
        }
    }
}

/// What a wrapped text holds is its words in pieces.
proof fn lemma_wrapped_words(text: Seq<char>, width: usize)
    ensures
        words(joined(wrapped(text, width))) == pieces(words(text), wrap_width(width)),
{
    let w = wrap_width(width);
    lemma_words_good(text);
    lemma_pieces(words(text), w);
    let ps = pieces(words(text), w);
    lemma_filled_words(ps, w);
    if filled(ps, w).len() == 0 {
        assert(joined(seq![Seq::<char>::empty()]) =~= joined(filled(ps, w)));
    }
}

/// Wrapping breaks no word that fits: where no word is longer than the width,
/// the words of the lines are the words of the text.
pub proof fn wrapping_breaks_no_word_that_fits(text: Seq<char>, width: usize)
    requires
        width > 0,
        forall|i: int| 0 <= i < words(text).len() ==> (#[trigger] words(text)[i]).len() <= width,
    ensures
        words(joined(wrapped(text, width))) == words(text),
{
    lemma_wrapped_words(text, width);
    lemma_pieces_short(words(text), wrap_width(width));
}

/// Pieces of more words are more pieces.
proof fn lemma_pieces_add(a: Seq<Seq<char>>, b: Seq<Seq<char>>, width: nat)
    ensures
        pieces(a + b, width) == pieces(a, width) + pieces(b, width),
    decreases b.len(),
{
    if b.len() == 0 {
        assert(a + b =~= a);
        assert(pieces(a, width) + pieces(b, width) =~= pieces(a, width));
    } else {
        lemma_pieces_add(a, b.drop_last(), width);
        assert((a + b).drop_last() =~= a + b.drop_last());
        assert((a + b).last() == b.last());
        assert(pieces(a + b, width) =~= pieces(a, width) + pieces(b, width));
    }
}

/// How a word is broken does not depend on the text around it: the words of the
/// lines of two texts set as one are those of the one and then of the other.
pub proof fn words_are_broken_each_on_its_own(
    a: Seq<char>,
    gap: char,
    b: Seq<char>,
    width: usize,
)
    requires
        chars::is_white_space(gap),
    ensures
        words(joined(wrapped(a.push(gap) + b, width))) == words(joined(wrapped(a, width))) + words(
            joined(wrapped(b, width)),
        ),
{
    lemma_wrapped_words(a.push(gap) + b, width);
    lemma_wrapped_words(a, width);
    lemma_wrapped_words(b, width);
    words_are_cut_at_white_space(a, gap, b);
    lemma_pieces_add(words(a), words(b), wrap_width(width));
}

/// The pieces of a word are its stretches, one width after the other.
proof fn lemma_pieces_stretch(word: Seq<char>, width: nat, i: int)
    requires
        width > 0,
        word.len() > 0,
        0 <= i < pieces_of(word, width).len(),
    ensures
        0 <= i * width < word.len(),
        pieces_of(word, width)[i] == word.subrange(
            i * width,
            if (i + 1) * width <= word.len() {
                (i + 1) * width
            } else {
                word.len() as int
            },
        ),
        pieces_of(word, width).len() * width >= word.len(),
        i < pieces_of(word, width).len() - 1 ==> (i + 1) * width <= word.len(),
    decreases word.len(),
{
    let all = pieces_of(word, width);
    if word.len() <= width {
        assert(all =~= seq![word]);
        assert(word =~= word.subrange(0, word.len() as int));
        assert(word.subrange(0, width as int) == word || word.len() < width) by {
            if word.len() == width {
                assert(word.subrange(0, width as int) =~= word);
            }
        }
        assert(i * width == 0 && (i + 1) * width == width && all.len() * width == width)
            by (nonlinear_arith)
            requires
                i == 0,
                all.len() == 1,
        ;
    } else {
        let rest = word.skip(width as int);
        let tail = pieces_of(rest, width);
        lemma_pieces_stretch(rest, width, if i > 0 {
            i - 1
        } else {
            0
        });
        assert(all.len() == tail.len() + 1);
        assert(all.len() * width == tail.len() * width + width) by (nonlinear_arith)
            requires
                all.len() == tail.len() + 1,
        ;
        assert((i + 1) * width == i * width + width && i * width == (i - 1) * width + width)
            by (nonlinear_arith);
        if i > 0 {
            assert(all[i] == tail[i - 1]);
            assert(all[i] =~= word.subrange(
                i * width,
                if (i + 1) * width <= word.len() {
                    (i + 1) * width
                } else {
                    word.len() as int
                },
            ));
        } else {
            assert(0 * width == 0) by (nonlinear_arith);
            assert(all[0] =~= word.subrange(0, width as int));
        }
    }
}

/// Pieces that fill their lines stand alone.
proof fn lemma_filled_full(all: Seq<Seq<char>>, width: nat)
    requires
        forall|i: int| 0 <= i < all.len() - 1 ==> (#[trigger] all[i]).len() >= width,
    ensures
        filled(all, width) == all,
    decreases all.len(),
{
    if all.len() > 0 {
        let head = all.drop_last();
        assert forall|i: int| 0 <= i < head.len() - 1 implies (#[trigger] head[i]).len()
            >= width by {
            assert(head[i] == all[i]);
        }
        lemma_filled_full(head, width);
        if head.len() > 0 {
            assert(head.last() == all[all.len() - 2]);
        }
        assert(filled(all, width) =~= all);
    } else {
        assert(filled(all, width) =~= all);
    }
}

/// An overlong word is broken into full lines and what is left over: the `i`th
/// line of a word holds its characters from `i` widths on.
pub proof fn an_overlong_word_fills_its_lines(word: Seq<char>, width: usize, i: int)
    requires
        width > 0,
        word.len() > 0,
        no_white_space(word),
        0 <= i < wrapped(word, width).len(),
    ensures
        0 <= i * width < word.len() <= wrapped(word, width).len() * width,
        wrapped(word, width)[i] == word.subrange(
            i * width,
            if (i + 1) * width <= word.len() {
                (i + 1) * width
            } else {
                word.len() as int
            },
        ),
{
    let w = width as nat;
    a_text_without_white_space_is_one_word(word);
    let ps = pieces_of(word, w);
    assert(pieces(seq![word], w) =~= ps) by {
        reveal_with_fuel(pieces, 2);
        assert(seq![word].drop_last() =~= Seq::<Seq<char>>::empty());
        assert(Seq::<Seq<char>>::empty() + ps =~= ps);
    }
    lemma_pieces_of(word, w);
    assert forall|k: int| 0 <= k < ps.len() - 1 implies (#[trigger] ps[k]).len() >= w by {
        lemma_pieces_stretch(word, w, k);
        assert((k + 1) * w == k * w + w) by (nonlinear_arith);
    }
    lemma_filled_full(ps, w);
    assert(ps.len() > 0);
    lemma_pieces_stretch(word, w, i);
}

/// A line ends only where the next piece would not fit.
proof fn lemma_filled_greedy(all: Seq<Seq<char>>, width: nat, i: int, k: int)
    requires
        good_pieces(all, width),
        0 <= i,
        i + 1 < filled(all, width).len(),
        0 < k <= filled(all, width)[i + 1].len(),
        k == filled(all, width)[i + 1].len() || filled(all, width)[i + 1][k] == ' ',
    ensures
        filled(all, width)[i].len() + 1 + k > width,
    decreases all.len(),
{
    let head = all.drop_last();
    let piece = all.last();
    assert(all[all.len() - 1] == piece);
    assert(no_white_space(piece) && piece.len() > 0);
    assert(good_pieces(head, width)) by {
        assert forall|j: int| 0 <= j < head.len() implies 0 < (#[trigger] head[j]).len() <= width
            && no_white_space(head[j]) by {
            assert(head[j] == all[j]);
            assert(no_white_space(all[j]));
        }
    }
    lemma_filled(head, width);
    let before = filled(head, width);
    let out = filled(all, width);
    if before.len() > 0 && before.last().len() + 1 + piece.len() <= width {
        let held = before.last();
        assert(out[i] == before[i]);
        if i + 1 < before.len() - 1 {
            assert(out[i + 1] == before[i + 1]);
            lemma_filled_greedy(head, width, i, k);
        } else {
            assert(before[before.len() - 1] == held);
            if k < held.len() {
                assert(out[i + 1][k] == held[k]);
                lemma_filled_greedy(head, width, i, k);
            } else {
                lemma_filled_greedy(head, width, i, held.len() as int);
            }
        }
    } else if i + 1 < before.len() {
        assert(out[i] == before[i] && out[i + 1] == before[i + 1]);
        lemma_filled_greedy(head, width, i, k);
    } else {
        assert(out[i] == before.last());
        assert(out[i + 1] == piece);
        if k < piece.len() {
            assert(!chars::is_white_space(piece[k]));
        }
    }
}

/// Wrapping is greedy: a line ends only where the first word of the next one,
/// and a space before it, would not have fitted.
pub proof fn wrapping_is_greedy(text: Seq<char>, width: usize, i: int, k: int)
    requires
        width > 0,
        0 <= i,
        i + 1 < wrapped(text, width).len(),
        0 < k <= wrapped(text, width)[i + 1].len(),
        k == wrapped(text, width)[i + 1].len() || wrapped(text, width)[i + 1][k] == ' ',
    ensures
        wrapped(text, width)[i].len() + 1 + k > width,
{
    lemma_words_good(text);
    lemma_pieces(words(text), width as nat);
    lemma_filled_greedy(pieces(words(text), width as nat), width as nat, i, k);
}

/// Every line of a wrapped text is words with one space between each two, but
/// for the one empty line of a text without words.
pub proof fn wrapped_lines_have_single_spaces(text: Seq<char>, width: usize, i: int)
    requires
        0 <= i < wrapped(text, width).len(),
    ensures
        words(text).len() > 0 ==> is_settled(wrapped(text, width)[i], wrap_width(width)),
        words(text).len() == 0 ==> wrapped(text, width) == seq![Seq::<char>::empty()],
{
    let w = wrap_width(width);
    lemma_words_good(text);
    lemma_pieces(words(text), w);
    let ps = pieces(words(text), w);
    lemma_filled(ps, w);
    if words(text).len() > 0 {
        lemma_filled_settled(ps, w, i);
    } else {
        assert(ps =~= Seq::<Seq<char>>::empty());
        assert(filled(ps, w) =~= Seq::<Seq<char>>::empty());
    }
}

/// White space holds no ink.
proof fn lemma_no_ink(s: Seq<char>)
    requires
        forall|i: int| 0 <= i < s.len() ==> chars::is_white_space(#[trigger] s[i]),
    ensures
        ink(s) == Seq::<char>::empty(),
    decreases s.len(),
{
    if s.len() > 0 {
        let head = s.drop_last();
        assert(chars::is_white_space(s[s.len() - 1]));
        assert forall|i: int| 0 <= i < head.len() implies chars::is_white_space(
            #[trigger] head[i],
        ) by {
            assert(head[i] == s[i]);
        }
        lemma_no_ink(head);
    }
}

/// Joining lines adds no ink.
proof fn lemma_joined_ink(all: Seq<Seq<char>>)
    ensures
        ink(joined(all)) == inks(all),
    decreases all.len(),
{
    if all.len() == 1 {
        lemma_inks_one(all[0]);
        assert(all =~= seq![all[0]]);
    } else if all.len() > 1 {
        let head = all.drop_last();
        lemma_joined_ink(head);
        lemma_ink_add(joined(head).push('\n'), all.last());
        assert(joined(head).push('\n').drop_last() =~= joined(head));
    }
}

/// Padding lines adds no ink.
proof fn lemma_padded_ink(all: Seq<Seq<char>>, set: Seq<Seq<char>>, block: nat, how: Align)
    requires
        set.len() == all.len(),
        forall|i: int| 0 <= i < all.len() ==> #[trigger] set[i] == padded(all[i], block, how),
    ensures
        inks(set) == inks(all),
    decreases all.len(),
{
    if all.len() > 0 {
        let line = all.last();
        assert forall|i: int| 0 <= i < all.len() - 1 implies #[trigger] set.drop_last()[i]
            == padded(all.drop_last()[i], block, how) by {
            assert(set[i] == padded(all[i], block, how));
        }
        lemma_padded_ink(all.drop_last(), set.drop_last(), block, how);
        assert(set[set.len() - 1] == padded(all[all.len() - 1], block, how));
        if how == Align::Center {
            let pad = spaces(((block - line.len()) / 2) as nat);
            lemma_no_ink(pad);
            lemma_ink_add(pad, line);
            assert(Seq::<char>::empty() + ink(line) =~= ink(line));
        }
    } else {
        assert(set =~= all);
    }
}

/// Setting lines as a block adds no ink and loses none.
pub proof fn alignment_keeps_the_ink(all: Seq<Seq<char>>, how: Align)
    ensures
        ink(aligned(all, how)) == inks(all),
{
    let set = padded_lines(all, how);
    lemma_joined_ink(set);
    lemma_padded_ink(all, set, widest(all), how);
}

/// A quote block loses no ink: what it shows is the quotation, then the prefix
/// and the attribution, whatever the measure.
pub proof fn a_quote_block_loses_no_ink(quote: QuoteView, measure: MeasureView)
    ensures
        ink(quote_block(quote, measure)) == ink(quote.text) + match quote.attribution {
            Some(attribution) => ink(measure.attribution_prefix) + ink(attribution),
            None => Seq::empty(),
        },
{
    let width = measure.width;
    let prefix = measure.attribution_prefix;
    alignment_keeps_the_ink(quote_lines(quote, width, prefix), measure.align);
    lemma_wrapped(quote.text, width);
    if let Some(attribution) = quote.attribution {
        let first = wrapped(quote.text, width);
        let opened = first.push(Seq::empty());
        lemma_wrapped(prefix + attribution, width);
        lemma_inks_add(opened, wrapped(prefix + attribution, width));
        assert(opened.drop_last() =~= first);
        lemma_no_ink(Seq::empty());
        assert(inks(opened) =~= inks(first));
        lemma_ink_add(prefix, attribution);
    } else {
        assert(ink(quote.text) + Seq::<char>::empty() =~= ink(quote.text));
    }
}

/// Lines before a blank one and lines after it.
proof fn lemma_joined_gap(a: Seq<Seq<char>>, b: Seq<Seq<char>>)
    requires
        a.len() > 0,
        b.len() > 0,
    ensures
        joined(a.push(Seq::empty()) + b) == joined(a) + seq!['\n', '\n'] + joined(b),
{
    let opened = a.push(Seq::empty());
    lemma_joined_add(opened, b);
    lemma_joined_push(a, Seq::empty());
    assert(joined(a).push('\n') + Seq::<char>::empty() =~= joined(a).push('\n'));
    assert(joined(opened).push('\n') + joined(b) =~= joined(a) + seq!['\n', '\n'] + joined(b));
}

/// Lines after other lines.
proof fn lemma_joined_add(a: Seq<Seq<char>>, b: Seq<Seq<char>>)
    requires
        a.len() > 0,
        b.len() > 0,
    ensures
        joined(a + b) == joined(a).push('\n') + joined(b),
    decreases b.len(),
{
    let head = b.drop_last();
    assert((a + b).drop_last() =~= a + head);
    assert((a + b).last() == b.last());
    if b.len() == 1 {
        assert(a + head =~= a);
        assert(joined(b) == b.last());
    } else {
        lemma_joined_add(a, head);
        assert(joined(a + b) =~= joined(a).push('\n') + joined(b));
    }
}

/// A quote stands above its attribution: left aligned, the block is the lines
/// that the quotation wraps to, a blank line, and those that the prefix and the
/// attribution wrap to.
pub proof fn a_quote_stands_above_its_attribution(quote: QuoteView, measure: MeasureView)
    requires
        measure.align == Align::Left,
    ensures
        quote_block(quote, measure) == match quote.attribution {
            Some(attribution) => joined(wrapped(quote.text, measure.width)) + seq!['\n', '\n']
                + joined(wrapped(measure.attribution_prefix + attribution, measure.width)),
            None => joined(wrapped(quote.text, measure.width)),
        },
{
    left_alignment_pads_nothing(
        quote_lines(quote, measure.width, measure.attribution_prefix),
    );
    lemma_wrapped(quote.text, measure.width);
    if let Some(attribution) = quote.attribution {
        lemma_wrapped(measure.attribution_prefix + attribution, measure.width);
        lemma_joined_gap(
            wrapped(quote.text, measure.width),
            wrapped(measure.attribution_prefix + attribution, measure.width),
        );
    }
}

/// Centring splits the difference: the line that is the longest stays where it
/// is, and each other one moves right by half of what it is shorter.
pub proof fn centring_splits_the_difference(all: Seq<Seq<char>>, longest: int, i: int)
    requires
        forall|k: int| 0 <= k < all.len() ==> one_line(#[trigger] all[k]),
        0 <= longest < all.len(),
        forall|k: int| 0 <= k < all.len() ==> (#[trigger] all[k]).len() <= all[longest].len(),
        0 <= i < all.len(),
    ensures
        fields(aligned(all, Align::Center), '\n').len() == all.len(),
        fields(aligned(all, Align::Center), '\n')[i] == Seq::new(
            ((all[longest].len() - all[i].len()) / 2) as nat,
            |j: int| ' ',
        ) + all[i],
{
    lemma_aligned_fields(all, Align::Center);
    lemma_widest(all);
}

/// The lines of a quote block, left aligned, hold no line break.
proof fn lemma_quote_lines(quote: QuoteView, width: usize, prefix: Seq<char>)
    ensures
        quote_lines(quote, width, prefix).len() > 0,
        forall|k: int|
            0 <= k < quote_lines(quote, width, prefix).len() ==> one_line(
                #[trigger] quote_lines(quote, width, prefix)[k],
            ),
{
    let all = quote_lines(quote, width, prefix);
    let first = wrapped(quote.text, width);
    lemma_wrapped(quote.text, width);
    if quote.attribution is Some {
        lemma_wrapped(prefix + quote.attribution->0, width);
    }
    assert forall|k: int| 0 <= k < all.len() implies one_line(#[trigger] all[k]) by {
        if k < first.len() {
            assert(all[k] == first[k]);
        } else if k > first.len() {
            assert(all[k] == wrapped(prefix + quote.attribution->0, width)[k - first.len() - 1]);
        }
    }
}

/// A centred quote block is the left-aligned one with its lines moved right:
/// the longest stays, each other one moves by half of what it is shorter.
pub proof fn a_centred_quote_block_only_moves_its_lines(
    quote: QuoteView,
    width: usize,
    prefix: Seq<char>,
    longest: int,
    i: int,
)
    requires
        ({
            let left = MeasureView { width, align: Align::Left, attribution_prefix: prefix };
            let plain = fields(quote_block(quote, left), '\n');
            &&& 0 <= longest < plain.len()
            &&& forall|k: int|
                0 <= k < plain.len() ==> (#[trigger] plain[k]).len() <= plain[longest].len()
            &&& 0 <= i < plain.len()
        }),
    ensures
        ({
            let left = MeasureView { width, align: Align::Left, attribution_prefix: prefix };
            let center = MeasureView { width, align: Align::Center, attribution_prefix: prefix };
            let plain = fields(quote_block(quote, left), '\n');
            let moved = fields(quote_block(quote, center), '\n');
            &&& moved.len() == plain.len()
            &&& moved[i] == Seq::new(
                ((plain[longest].len() - plain[i].len()) / 2) as nat,
                |j: int| ' ',
            ) + plain[i]
        }),
{
    let all = quote_lines(quote, width, prefix);
    lemma_quote_lines(quote, width, prefix);
    left_alignment_pads_nothing(all);
    lemma_fields_joined(all);
    centring_splits_the_difference(all, longest, i);
}

/// A centred text block is the left-aligned one with its lines moved right.
pub proof fn a_centred_text_block_only_moves_its_lines(
    text: Seq<char>,
    width: usize,
    prefix: Seq<char>,
    longest: int,
    i: int,
)
    requires
        ({
            let left = MeasureView { width, align: Align::Left, attribution_prefix: prefix };
            let plain = fields(text_block(text, left), '\n');
            &&& 0 <= longest < plain.len()
            &&& forall|k: int|
                0 <= k < plain.len() ==> (#[trigger] plain[k]).len() <= plain[longest].len()
            &&& 0 <= i < plain.len()
        }),
    ensures
        ({
            let left = MeasureView { width, align: Align::Left, attribution_prefix: prefix };
            let center = MeasureView { width, align: Align::Center, attribution_prefix: prefix };
            let plain = fields(text_block(text, left), '\n');
            let moved = fields(text_block(text, center), '\n');
            &&& moved.len() == plain.len()
            &&& moved[i] == Seq::new(
                ((plain[longest].len() - plain[i].len()) / 2) as nat,
                |j: int| ' ',
            ) + plain[i]
        }),
{
    let cut = lines(without_newlines(text));
    let all = text_lines(cut, width);
    lemma_text_lines(cut, width);
    left_alignment_pads_nothing(all);
    if all.len() > 0 {
        assert forall|k: int| 0 <= k < all.len() implies one_line(#[trigger] all[k]) by {}
        lemma_fields_joined(all);
        centring_splits_the_difference(all, longest, i);
    } else {
        assert(padded_lines(all, Align::Center) =~= Seq::<Seq<char>>::empty());
        assert(joined(all) =~= Seq::<char>::empty());
        assert(fields(Seq::<char>::empty(), '\n') =~= seq![Seq::<char>::empty()]);
        assert(Seq::<char>::empty() =~= Seq::new(0, |j: int| ' ') + Seq::<char>::empty());
    }
}

/// A line that ends in white space sets like the line without it.
proof fn lemma_wrapped_trail(line: Seq<char>, width: usize)
    requires
        line.len() > 0,
        chars::is_white_space(line.last()),
    ensures
        wrapped(line, width) == wrapped(line.drop_last(), width),
{
}

/// More lines of a text set to more lines.
proof fn lemma_text_lines_add(a: Seq<Seq<char>>, b: Seq<Seq<char>>, width: usize)
    ensures
        text_lines(a + b, width) == text_lines(a, width) + text_lines(b, width),
    decreases b.len(),
{
    if b.len() == 0 {
        assert(a + b =~= a);
        assert(text_lines(a, width) + text_lines(b, width) =~= text_lines(a, width));
    } else {
        lemma_text_lines_add(a, b.drop_last(), width);
        assert((a + b).drop_last() =~= a + b.drop_last());
        assert((a + b).last() == b.last());
        assert(text_lines(a + b, width) =~= text_lines(a, width) + text_lines(b, width));
    }
}

/// One line of a text, set.
proof fn lemma_text_line(line: Seq<char>, width: usize)
    ensures
        text_lines(seq![line], width) == if trimmed(line).len() == 0 {
            seq![Seq::<char>::empty()]
        } else {
            wrapped(line, width)
        },
{
    reveal_with_fuel(text_lines, 2);
    assert(seq![line].drop_last() =~= Seq::<Seq<char>>::empty());
    assert(text_lines(Seq::<Seq<char>>::empty(), width) =~= Seq::<Seq<char>>::empty());
    assert(Seq::<Seq<char>>::empty() + wrapped(line, width) =~= wrapped(line, width));
    assert(Seq::<Seq<char>>::empty().push(Seq::<char>::empty()) =~= seq![Seq::<char>::empty()]);
}

/// Newlines behind a text that goes on stay.
proof fn lemma_without_newlines_add(a: Seq<char>, b: Seq<char>)
    requires
        without_newlines(b).len() > 0,
    ensures
        without_newlines(a + b) == a + without_newlines(b),
    decreases b.len(),
{
    assert((a + b).last() == b.last());
    if b.last() == '\n' {
        assert((a + b).drop_last() =~= a + b.drop_last());
        lemma_without_newlines_add(a, b.drop_last());
    }
}

/// Existing line breaks are honoured, and each line is set on its own: a line
/// and a rest come out as the line does, a line break, and as the rest does.
pub proof fn each_line_of_a_text_is_set_on_its_own(
    line: Seq<char>,
    rest: Seq<char>,
    measure: MeasureView,
)
    requires
        measure.align == Align::Left,
        one_line(line),
        exists|i: int| 0 <= i < rest.len() && #[trigger] rest[i] != '\n',
    ensures
        text_block(line.push('\n') + rest, measure) == text_block(line, measure).push('\n')
            + text_block(rest, measure),
{
    let w = measure.width;
    lemma_without_newlines_kept(rest);
    let kept = without_newlines(rest);
    lemma_without_newlines_add(line.push('\n'), rest);
    chars::a_line_ends_at_its_newline(line, kept);
    let short = chars::without_return(line);
    let below = text_lines(lines(kept), w);
    lemma_text_lines_add(seq![short], lines(kept), w);
    lemma_text_line(short, w);
    lemma_text_lines(lines(kept), w);
    lemma_lines_nonempty(kept);
    lemma_wrapped(short, w);
    let first = text_lines(seq![short], w);
    left_alignment_pads_nothing(first + below);
    left_alignment_pads_nothing(below);
    lemma_joined_add(first, below);
    // The line by itself.
    assert(without_newlines(line) == line) by {
        if line.len() > 0 {
            assert(line[line.len() - 1] != '\n');
        }
    }
    chars::a_last_line_needs_no_newline(line);
    let alone = text_lines(lines(line), w);
    left_alignment_pads_nothing(alone);
    if line.len() > 0 {
        lemma_text_line(line, w);
        if line.last() == '\r' {
            lemma_wrapped_trail(line, w);
            assert(trimmed(line) == trimmed(short));
        }
        assert(alone == first);
    } else {
        assert(alone =~= Seq::<Seq<char>>::empty());
        assert(trimmed(short).len() == 0);
        assert(joined(first) =~= joined(alone));
    }
}

/// A text that holds anything but newlines keeps something.
proof fn lemma_without_newlines_kept(s: Seq<char>)
    requires
        exists|i: int| 0 <= i < s.len() && #[trigger] s[i] != '\n',
    ensures
        without_newlines(s).len() > 0,
        without_newlines(s).last() != '\n',
    decreases s.len(),
{
    if s.last() == '\n' {
        let i = choose|i: int| 0 <= i < s.len() && #[trigger] s[i] != '\n';
        assert(i != s.len() - 1);
        assert(s.drop_last()[i] != '\n');
        lemma_without_newlines_kept(s.drop_last());
    }
}

/// A text that does not end in a newline has a line.
proof fn lemma_lines_nonempty(s: Seq<char>)
    requires
        s.len() > 0,
        s.last() != '\n',
    ensures
        lines(s).len() > 0,
{
    chars::lemma_fields_nonempty(s.drop_last(), '\n');
    assert(fields(s, '\n').last().len() > 0);
}

/// Newlines at the end of a text are not shown.
pub proof fn newlines_at_the_end_are_not_shown(text: Seq<char>, measure: MeasureView)
    ensures
        text_block(text.push('\n'), measure) == text_block(text, measure),
{
    assert(text.push('\n').drop_last() =~= text);
}

/// A single line is set as it wraps, and a blank one is empty.
pub proof fn a_single_line_is_set_as_it_wraps(line: Seq<char>, measure: MeasureView)
    requires
        measure.align == Align::Left,
        one_line(line),
    ensures
        text_block(line, measure) == joined(wrapped(line, measure.width)),
{
    assert(without_newlines(line) == line) by {
        if line.len() > 0 {
            assert(line[line.len() - 1] != '\n');
        }
    }
    chars::a_last_line_needs_no_newline(line);
    let all = text_lines(lines(line), measure.width);
    left_alignment_pads_nothing(all);
    lemma_text_line(line, measure.width);
    if trimmed(line).len() == 0 {
        lemma_blank(line);
        lemma_wrapped_blank(line, measure.width);
        if line.len() == 0 {
            assert(all =~= Seq::<Seq<char>>::empty());
        }
        assert(joined(all) =~= joined(seq![Seq::<char>::empty()]));
    }
}

/// A text of white space has no words and wraps to one empty line.
proof fn lemma_wrapped_blank(line: Seq<char>, width: usize)
    requires
        words(line).len() == 0,
    ensures
        wrapped(line, width) == seq![Seq::<char>::empty()],
{
    lemma_wrapped(line, width);
    wrapped_lines_have_single_spaces(line, width, 0);
}

/// A text that trimming leaves nothing of has no words and no ink.
proof fn lemma_blank(s: Seq<char>)
    requires
        trimmed(s).len() == 0,
    ensures
        words(s).len() == 0,
        ink(s) == Seq::<char>::empty(),
    decreases s.len(),
{
    if s.len() > 0 {
        if chars::is_white_space(s.last()) {
            lemma_blank(s.drop_last());
        } else {
            lemma_not_blank(s);
        }
    }
}

/// Cutting a text at newlines loses no ink.
proof fn lemma_fields_ink(s: Seq<char>)
    ensures
        inks(fields(s, '\n')) == ink(s),
    decreases s.len(),
{
    if s.len() > 0 {
        let head = s.drop_last();
        let before = fields(head, '\n');
        let all = fields(s, '\n');
        lemma_fields_ink(head);
        chars::lemma_fields_nonempty(head, '\n');
        if s.last() == '\n' {
            assert(all.drop_last() =~= before);
            lemma_no_ink(Seq::empty());
            assert(inks(all) =~= ink(s));
        } else {
            assert(all.drop_last() =~= before.drop_last());
            let longer = before.last().push(s.last());
            assert(longer.drop_last() =~= before.last());
            assert(inks(all) =~= ink(s));
        }
    } else {
        assert(fields(s, '\n') =~= seq![Seq::<char>::empty()]);
        lemma_inks_one(Seq::empty());
        assert(s =~= Seq::<char>::empty());
    }
}

/// Lists of lines with the same ink line by line have the same ink.
proof fn lemma_inks_same(a: Seq<Seq<char>>, b: Seq<Seq<char>>)
    requires
        a.len() == b.len(),
        forall|i: int| 0 <= i < a.len() ==> ink(#[trigger] a[i]) == ink(b[i]),
    ensures
        inks(a) == inks(b),
    decreases a.len(),
{
    if a.len() > 0 {
        assert forall|i: int| 0 <= i < a.len() - 1 implies ink(#[trigger] a.drop_last()[i]) == ink(
            b.drop_last()[i],
        ) by {
            assert(ink(a[i]) == ink(b[i]));
        }
        lemma_inks_same(a.drop_last(), b.drop_last());
        assert(ink(a[a.len() - 1]) == ink(b[b.len() - 1]));
    }
}

/// Splitting a text into lines loses no ink.
proof fn lemma_lines_ink(s: Seq<char>)
    ensures
        inks(lines(s)) == ink(s),
{
    let cut = fields(s, '\n');
    chars::lemma_fields_nonempty(s, '\n');
    lemma_fields_ink(s);
    let front = cut.drop_last();
    let ended = front.map_values(|line: Seq<char>| chars::without_return(line));
    assert forall|i: int| 0 <= i < front.len() implies ink(#[trigger] ended[i]) == ink(
        front[i],
    ) by {}
    lemma_inks_same(ended, front);
    if cut.last().len() == 0 {
        lemma_no_ink(cut.last());
        assert(inks(cut) =~= inks(front));
    } else {
        assert(ended.push(cut.last()).drop_last() =~= ended);
    }
}

/// Setting the lines of a text loses no ink.
proof fn lemma_text_lines_ink(all: Seq<Seq<char>>, width: usize)
    ensures
        inks(text_lines(all, width)) == inks(all),
    decreases all.len(),
{
    if all.len() > 0 {
        let line = all.last();
        let before = text_lines(all.drop_last(), width);
        lemma_text_lines_ink(all.drop_last(), width);
        lemma_wrapped(line, width);
        if trimmed(line).len() == 0 {
            lemma_blank(line);
            lemma_no_ink(Seq::empty());
            assert(before.push(Seq::empty()).drop_last() =~= before);
        } else {
            lemma_inks_add(before, wrapped(line, width));
        }
    }
}

/// A text block loses no ink.
pub proof fn a_text_block_loses_no_ink(text: Seq<char>, measure: MeasureView)
    ensures
        ink(text_block(text, measure)) == ink(text),
{
    let kept = without_newlines(text);
    alignment_keeps_the_ink(text_lines(lines(kept), measure.width), measure.align);
    lemma_text_lines_ink(lines(kept), measure.width);
    lemma_lines_ink(kept);
    lemma_without_newlines_ink(text);
}

proof fn lemma_without_newlines_ink(s: Seq<char>)
    ensures
        ink(without_newlines(s)) == ink(s),
    decreases s.len(),
{
    if s.len() > 0 && s.last() == '\n' {
        lemma_without_newlines_ink(s.drop_last());
    }
}

/// The block of a content shows what was chosen: the chosen quote and who it is
/// by, or the text.
pub proof fn a_block_shows_what_was_chosen(
    content: ContentView,
    choice: int,
    measure: MeasureView,
)
    requires
        content is Text || (0 <= choice < content->Quotes_0.len()),
    ensures
        match content {
            ContentView::Quotes(quotes) => {
                &&& block_of(content, choice, measure) == quote_block(quotes[choice], measure)
                &&& ink(block_of(content, choice, measure)) == ink(quotes[choice].text)
                    + match quotes[choice].attribution {
                    Some(attribution) => ink(measure.attribution_prefix) + ink(attribution),
                    None => Seq::empty(),
                }
            },
            ContentView::Text(text) => {
                &&& block_of(content, choice, measure) == text_block(text, measure)
                &&& ink(block_of(content, choice, measure)) == ink(text)
            },
        },
{
    match content {
        ContentView::Quotes(quotes) => {
            a_quote_block_loses_no_ink(quotes[choice], measure);
        },
        ContentView::Text(text) => {
            a_text_block_loses_no_ink(text, measure);
        },
    }
}

/// Whether a text is white space throughout.
pub open spec fn is_gap(s: Seq<char>) -> bool {
    forall|i: int| 0 <= i < s.len() ==> chars::is_white_space(#[trigger] s[i])
}

/// Whether a text neither starts nor ends with white space.
pub open spec fn is_tight(s: Seq<char>) -> bool {
    s.len() > 0 ==> !chars::is_white_space(s[0]) && !chars::is_white_space(s.last())
}

/// A list of one line.
proof fn lemma_one_quote(line: Seq<char>, separator: Seq<char>)
    ensures
        quotes_on(seq![line], separator) == if is_entry(trimmed(line)) {
            seq![quote_of(trimmed(line), separator)]
        } else {
            Seq::<QuoteView>::empty()
        },
{
    reveal_with_fuel(quotes_on, 2);
    assert(seq![line].drop_last() =~= Seq::<Seq<char>>::empty());
    assert(quotes_on(Seq::<Seq<char>>::empty(), separator) =~= Seq::<QuoteView>::empty());
    assert(Seq::<QuoteView>::empty().push(quote_of(trimmed(line), separator)) =~= seq![
        quote_of(trimmed(line), separator),
    ]);
}

/// A line without a separator is all quotation: it keeps every character
/// between the white space on its sides, and has no attribution.
pub proof fn a_line_without_a_separator_is_all_quotation(
    lead: Seq<char>,
    line: Seq<char>,
    trail: Seq<char>,
    separator: Seq<char>,
)
    requires
        is_gap(lead),
        is_gap(trail),
        is_tight(line),
        line.len() > 0,
        line[0] != '#',
        separator.len() > 0 ==> forall|j: int|
            0 <= j && j + separator.len() <= line.len() ==> #[trigger] line.subrange(
                j,
                j + separator.len(),
            ) != separator,
    ensures
        quotes_on(seq![lead + line + trail], separator) == seq![
            QuoteView { text: line, attribution: None },
        ],
{
    chars::trimming_takes_the_sides_and_nothing_else(lead, line, trail);
    lemma_one_quote(lead + line + trail, separator);
    if separator.len() > 0 {
        the_separator_is_matched_from_the_right(line, separator, line.len() as int);
        if let Some(i) = last_occurrence(line, separator, line.len() as int) {
            assert(line.subrange(i, i + separator.len()) != separator);
        }
    }
}

/// A line is split at its last separator: what stands before it is the
/// quotation and what stands after it the attribution, both without the white
/// space around them. With nothing after it there is no attribution.
pub proof fn a_line_is_split_at_its_last_separator(
    lead: Seq<char>,
    quotation: Seq<char>,
    before: Seq<char>,
    separator: Seq<char>,
    after: Seq<char>,
    attribution: Seq<char>,
    trail: Seq<char>,
)
    requires
        is_gap(lead),
        is_gap(before),
        is_gap(after),
        is_gap(trail),
        quotation.len() > 0,
        is_tight(quotation),
        is_tight(attribution),
        quotation[0] != '#',
        separator.len() > 0,
        is_tight(quotation + before + separator + after + attribution),
        forall|j: int|
            quotation.len() + before.len() < j && j + separator.len() <= (quotation + before
                + separator + after + attribution).len() ==> #[trigger] (quotation + before
                + separator + after + attribution).subrange(j, j + separator.len()) != separator,
    ensures
        quotes_on(
            seq![lead + (quotation + before + separator + after + attribution) + trail],
            separator,
        ) == seq![
            QuoteView {
                text: quotation,
                attribution: if attribution.len() == 0 {
                    None
                } else {
                    Some(attribution)
                },
            },
        ],
{
    let line = quotation + before + separator + after + attribution;
    let n = (quotation + before).len() as int;
    chars::trimming_takes_the_sides_and_nothing_else(lead, line, trail);
    lemma_one_quote(lead + line + trail, separator);
    assert(line[0] == quotation[0]);
    the_separator_is_matched_from_the_right(line, separator, line.len() as int);
    assert(line.subrange(n, n + separator.len()) =~= separator);
    assert(chars::occurs_at(line, separator, n));
    let at = last_occurrence(line, separator, line.len() as int);
    assert(at is Some);
    if at->0 > n {
        assert(line.subrange(at->0, at->0 + separator.len()) != separator);
    }
    assert(at == Some(n));
    let none = Seq::<char>::empty();
    assert(line.take(n) =~= none + quotation + before);
    assert(line.skip(n + separator.len()) =~= after + attribution + none);
    chars::trimming_takes_the_sides_and_nothing_else(none, quotation, before);
    chars::trimming_takes_the_sides_and_nothing_else(after, attribution, none);
    assert(none + quotation =~= quotation);
}

/// A line that is blank, or whose first character is a hash, is no quote.
pub proof fn a_blank_or_a_comment_is_no_quote(
    lead: Seq<char>,
    line: Seq<char>,
    trail: Seq<char>,
    separator: Seq<char>,
)
    requires
        is_gap(lead),
        is_gap(trail),
        is_tight(line),
        line.len() == 0 || line[0] == '#',
    ensures
        quotes_on(seq![lead + line + trail], separator) == Seq::<QuoteView>::empty(),
{
    chars::trimming_takes_the_sides_and_nothing_else(lead, line, trail);
    lemma_one_quote(lead + line + trail, separator);
}

/// Three words name an alignment, and no other text does.
pub proof fn three_words_name_an_alignment(s: Seq<char>)
    ensures
        alignment(s) == Some(Align::Center) <==> s == "center"@ || s == "centre"@,
        alignment(s) == Some(Align::Left) <==> s == "left"@,
{
    reveal_strlit("center");
    reveal_strlit("centre");
    reveal_strlit("left");
    assert("left"@.len() == 4 && "center"@.len() == 6 && "centre"@.len() == 6);
}

/// Where there is nothing to quote, the program's own name is shown.
pub proof fn an_empty_quote_list_shows_the_name(choice: int, measure: MeasureView)
    ensures
        block_of(ContentView::Quotes(Seq::empty()), choice, measure) == block_of(
            ContentView::Text(seq!['n', 'i', 'r', 'i', 's', 'a', 'v', 'e', 'r']),
            choice,
            measure,
        ),
{
    reveal_strlit("nirisaver");
    assert(FALLBACK_TEXT@ =~= seq!['n', 'i', 'r', 'i', 's', 'a', 'v', 'e', 'r']);
}

/// What is said of a word that names no alignment shows the word, and says
/// which do.
pub proof fn an_unknown_alignment_is_shown(word: Seq<char>)
    ensures
        unknown_alignment(word) == "unknown alignment "@ + quoted(word)
            + " (expected center or left)"@,
{
}

/// What is said of a quote, a measure and a content is what their fields hold,
/// each quote in its own place.
pub proof fn a_quote_says_what_it_holds(q: Quote, m: Measure, quotes: Vec<Quote>, text: String)
    ensures
        q@.text == q.text@,
        q.attribution is Some ==> q@.attribution == Some(q.attribution->0@),
        q.attribution is None ==> q@.attribution is None,
        m@.width == m.width,
        m@.align == m.align,
        m@.attribution_prefix == m.attribution_prefix@,
        Content::Text(text)@ == ContentView::Text(text@),
        Content::Quotes(quotes)@ is Quotes,
        Content::Quotes(quotes)@->Quotes_0.len() == quotes@.len(),
        forall|i: int|
            0 <= i < quotes@.len() ==> #[trigger] Content::Quotes(quotes)@->Quotes_0[i]
                == quotes@[i]@,
{
}

/// There is a choice for each quote, and none where the text is given.
pub proof fn there_is_a_choice_for_each_quote(quotes: Seq<QuoteView>, text: Seq<char>)
    ensures
        ContentView::Quotes(quotes).choice_count() == quotes.len(),
        ContentView::Text(text).choice_count() == 0,
{
}

} // verus!
