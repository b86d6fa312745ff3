//! The tokenizer: words of a source line located by row and column. A word
//! is a maximal run of non-whitespace characters; its column is its 0-based
//! starting offset on the line, counted in characters.

use vstd::prelude::*;
use vstd::string::StrSliceExecFns;

verus! {

/// One word of the source text, tagged with the file it came from, its
/// 0-based line number, and its 0-based starting column on that line.
#[derive(Debug)]
pub struct PositionedToken {
    pub path: String,
    pub row: usize,
    pub col: usize,
    pub word: String,
}

impl PositionedToken {
    /// An equal copy of the token.
    pub fn duplicate(&self) -> (r: PositionedToken)
        ensures
            r == *self,
    {
        PositionedToken {
            path: self.path.clone(),
            row: self.row,
            col: self.col,
            word: self.word.clone(),
        }
    }
}

/// Whether a character separates words: the Unicode white space characters.
pub open spec fn is_space(c: char) -> bool {
    let u = c as int;
    ||| u == 32
    ||| 9 <= u && u <= 13
    ||| u == 0x85
    ||| u == 0xA0
    ||| u == 0x1680
    ||| 0x2000 <= u && u <= 0x200A
    ||| u == 0x2028
    ||| u == 0x2029
    ||| u == 0x202F
    ||| u == 0x205F
    ||| u == 0x3000
}

/// Decide whether a character separates words.
pub fn is_space_char(c: char) -> (r: bool)
    ensures
        r == is_space(c),
{
    let u = c as u32;
    u == 32 || (9 <= u && u <= 13) || u == 0x85 || u == 0xA0 || u == 0x1680 || (0x2000 <= u && u
        <= 0x200A) || u == 0x2028 || u == 0x2029 || u == 0x202F || u == 0x205F || u == 0x3000
}

/// Whether `w` is the word starting at column `c` of `line`: a non-empty
/// run of non-separator characters that is maximal on both sides.
pub open spec fn is_word_at(line: Seq<char>, c: int, w: Seq<char>) -> bool {
    &&& 0 <= c
    &&& c + w.len() <= line.len()
    &&& w.len() > 0
    &&& w == line.subrange(c, c + w.len())
    &&& forall|k: int| 0 <= k < w.len() ==> !is_space(#[trigger] w[k])
    &&& (c == 0 || is_space(line[c - 1]))
    &&& (c + w.len() == line.len() || is_space(line[c + w.len()]))
}

/// The (column, word) pairs of `line` from position `i` on, scanning left to
/// right; `start` is the start of the word the scan stands inside, if any.
pub open spec fn words_from(line: Seq<char>, i: int, start: Option<int>) -> Seq<(int, Seq<char>)>
    decreases line.len() - i,
{
    if i < 0 || i >= line.len() {
        match start {
            Option::None => Seq::empty(),
            Option::Some(s) => seq![(s, line.subrange(s, line.len() as int))],
        }
    } else if is_space(line[i]) {
        match start {
            Option::None => words_from(line, i + 1, None),
            Option::Some(s) => seq![(s, line.subrange(s, i))] + words_from(line, i + 1, None),
        }
    } else {
        match start {
            Option::None => words_from(line, i + 1, Some(i)),
            Option::Some(s) => words_from(line, i + 1, Some(s)),
        }
    }
}

/// The (column, word) pairs of a whole line, left to right.
pub open spec fn line_words(line: Seq<char>) -> Seq<(int, Seq<char>)> {
    words_from(line, 0, None)
}

proof fn lemma_words_from_sound(line: Seq<char>, i: int, start: Option<int>)
    requires
        0 <= i <= line.len(),
        match start {
            Option::None => i == 0 || is_space(line[i - 1]),
            Option::Some(s) => {
                &&& 0 <= s < i
                &&& (s == 0 || is_space(line[s - 1]))
                &&& forall|k: int| s <= k < i ==> !is_space(#[trigger] line[k])
            },
        },
    ensures
        forall|j: int|
            0 <= j < words_from(line, i, start).len() ==> {
                let t = #[trigger] words_from(line, i, start)[j];
                &&& is_word_at(line, t.0, t.1)
                &&& t.0 >= (match start {
                    Option::None => i,
                    Option::Some(s) => s,
                })
            },
        forall|a: int, b: int|
            0 <= a < b < words_from(line, i, start).len() ==> (#[trigger] words_from(
                line,
                i,
                start,
            )[a]).0 < (#[trigger] words_from(line, i, start)[b]).0,
    decreases line.len() - i,
{
    let r = words_from(line, i, start);
    if i >= line.len() {
        match start {
            Option::None => {},
            Option::Some(s) => {
                let w = line.subrange(s, line.len() as int);
                assert forall|k: int| 0 <= k < w.len() implies !is_space(#[trigger] w[k]) by {
                    assert(w[k] == line[s + k]);
                }
                assert(is_word_at(line, s, w));
                assert(r[0] == (s, w));
            },
        }
    } else if is_space(line[i]) {
        lemma_words_from_sound(line, i + 1, None);
        let rec = words_from(line, i + 1, None);
        match start {
            Option::None => {
                assert forall|j: int|
                    0 <= j < r.len() implies {
                        let t = #[trigger] r[j];
                        &&& is_word_at(line, t.0, t.1)
                        &&& t.0 >= i
                    } by {
                    assert(r[j] == rec[j]);
                }
                assert forall|a: int, b: int|
                    0 <= a < b < r.len() implies (#[trigger] r[a]).0 < (#[trigger] r[b]).0 by {
                    assert(r[a] == rec[a] && r[b] == rec[b]);
                }
            },
            Option::Some(s) => {
                let w = line.subrange(s, i);
                assert forall|k: int| 0 <= k < w.len() implies !is_space(#[trigger] w[k]) by {
                    assert(w[k] == line[s + k]);
                }
                assert(is_word_at(line, s, w));
                let tail = rec;
                assert forall|j: int|
                    0 <= j < r.len() implies {
                        let t = #[trigger] r[j];
                        &&& is_word_at(line, t.0, t.1)
                        &&& t.0 >= s
                    } by {
                    if j > 0 {
                        assert(r[j] == tail[j - 1]);
                    }
                }
                assert forall|a: int, b: int|
                    0 <= a < b < r.len() implies (#[trigger] r[a]).0 < (#[trigger] r[b]).0 by {
                    assert(r[b] == tail[b - 1]);
                    if a > 0 {
                        assert(r[a] == tail[a - 1]);
                    }
                }
            },
        }
    } else {
        let s2: int = match start {
            Option::None => i,
            Option::Some(s) => s,
        };
        lemma_words_from_sound(line, i + 1, Some(s2));
        let rec = words_from(line, i + 1, Some(s2));
        assert forall|j: int|
            0 <= j < r.len() implies {
                let t = #[trigger] r[j];
                &&& is_word_at(line, t.0, t.1)
                &&& t.0 >= s2
            } by {
            assert(r[j] == rec[j]);
        }
        assert forall|a: int, b: int|
            0 <= a < b < r.len() implies (#[trigger] r[a]).0 < (#[trigger] r[b]).0 by {
            assert(r[a] == rec[a] && r[b] == rec[b]);
        }
    }
}

/// Every word the tokenizer reports for a line stands at its true starting
/// column — it is a maximal run of non-separator characters beginning
/// exactly where the column says — and the columns are strictly ascending.
pub proof fn lemma_line_words_sound(line: Seq<char>)
    ensures
        forall|j: int|
            0 <= j < line_words(line).len() ==> {
                let t = #[trigger] line_words(line)[j];
                is_word_at(line, t.0, t.1)
            },
        forall|a: int, b: int|
            0 <= a < b < line_words(line).len() ==> (#[trigger] line_words(line)[a]).0 < (
            #[trigger] line_words(line)[b]).0,
{
    lemma_words_from_sound(line, 0, None);
}

/// The (column, word) pairs a token sequence records.
pub open spec fn token_pairs(toks: Seq<PositionedToken>) -> Seq<(int, Seq<char>)> {
    toks.map_values(|t: PositionedToken| (t.col as int, t.word@))
}

/// Tokenize one line: the words of `line` in left-to-right order, each
/// tagged with `path`, the line's `row`, and its true starting column.
pub fn lex_line(path: &str, row: usize, line: &str) -> (r: Vec<PositionedToken>)
    ensures
        token_pairs(r@) == line_words(line@),
        forall|j: int|
            0 <= j < r@.len() ==> (#[trigger] r@[j]).path@ == path@ && r@[j].row == row,
{
    let len = line.unicode_len();
    let mut toks: Vec<PositionedToken> = Vec::new();
    proof {
        assert(token_pairs(toks@) + words_from(line@, 0, None) =~= line_words(line@));
    }
    let mut i: usize = 0;
    let mut start: usize = 0;
    let mut in_word: bool = false;
    while i < len
        invariant
            0 <= i <= len,
            len == line@.len(),
            in_word ==> start < i,
            token_pairs(toks@) + words_from(
                line@,
                i as int,
                if in_word {
                    Some(start as int)
                } else {
                    None
                },
            ) == line_words(line@),
            forall|j: int|
                0 <= j < toks@.len() ==> (#[trigger] toks@[j]).path@ == path@ && toks@[j].row
                    == row,
        decreases len - i,
    {
        let c = line.get_char(i);
        if is_space_char(c) {
            if in_word {
                let word = line.substring_char(start, i).to_owned();
                let t = PositionedToken { path: path.to_owned(), row, col: start, word };
                let ghost prev = toks@;
                toks.push(t);
                in_word = false;
                proof {
                    assert(token_pairs(toks@) =~= token_pairs(prev) + seq![
                        (start as int, line@.subrange(start as int, i as int)),
                    ]);
                    assert(token_pairs(toks@) + words_from(line@, i + 1, None) =~= line_words(
                        line@,
                    ));
                }
            }
        } else {
            if !in_word {
                start = i;
                in_word = true;
            }
        }
        i = i + 1;
    }
    if in_word {
        let word = line.substring_char(start, len).to_owned();
        let t = PositionedToken { path: path.to_owned(), row, col: start, word };
        let ghost prev = toks@;
        toks.push(t);
        proof {
            assert(token_pairs(toks@) =~= token_pairs(prev) + seq![
                (start as int, line@.subrange(start as int, len as int)),
            ]);
        }
    }
    proof {
        assert(token_pairs(toks@) =~= line_words(line@));
    }
    toks
}

/// The (row, column, word) triples of a whole file's lines, in ascending
/// line order, each line's words left to right.
pub open spec fn file_words(lines: Seq<Seq<char>>) -> Seq<(int, int, Seq<char>)>
    decreases lines.len(),
{
    if lines.len() == 0 {
        Seq::empty()
    } else {
        file_words(lines.drop_last()) + line_words(lines.last()).map_values(
            |p: (int, Seq<char>)| ((lines.len() - 1) as int, p.0, p.1),
        )
    }
}

/// The views of a file's lines.
pub open spec fn line_views(lines: Seq<String>) -> Seq<Seq<char>> {
    lines.map_values(|s: String| s@)
}

/// Tokenize a file's lines: every line's words in ascending line order,
/// then ascending column order, each tagged with `path`, its 0-based row
/// and its true starting column.
pub fn tokenize_lines(path: &str, lines: &Vec<String>) -> (r: Vec<PositionedToken>)
    ensures
        r@.len() == file_words(line_views(lines@)).len(),
        forall|j: int|
            0 <= j < r@.len() ==> {
                let t = #[trigger] r@[j];
                let w = file_words(line_views(lines@))[j];
                &&& t.path@ == path@
                &&& t.row as int == w.0
                &&& t.col as int == w.1
                &&& t.word@ == w.2
            },
{
    let mut toks: Vec<PositionedToken> = Vec::new();
    let mut row: usize = 0;
    while row < lines.len()
        invariant
            0 <= row <= lines@.len(),
            toks@.len() == file_words(line_views(lines@).take(row as int)).len(),
            forall|j: int|
                0 <= j < toks@.len() ==> {
                    let t = #[trigger] toks@[j];
                    let w = file_words(line_views(lines@).take(row as int))[j];
                    &&& t.path@ == path@
                    &&& t.row as int == w.0
                    &&& t.col as int == w.1
                    &&& t.word@ == w.2
                },
        decreases lines@.len() - row,
    {
        let ghost done = line_views(lines@).take(row as int);
        let line_toks = lex_line(path, row, lines[row].as_str());
        let ghost base = toks@;
        let mut k: usize = 0;
        while k < line_toks.len()
            invariant
                0 <= k <= line_toks@.len(),
                toks@ == base + line_toks@.take(k as int),
            decreases line_toks@.len() - k,
        {
            let t = line_toks[k].duplicate();
            toks.push(t);
            proof {
                assert(toks@ =~= base + line_toks@.take(k + 1));
            }
            k = k + 1;
        }
        proof {
            assert(line_toks@.take(line_toks@.len() as int) =~= line_toks@);
            assert(toks@ == base + line_toks@);
            let views = line_views(lines@);
            assert(views.take(row + 1).drop_last() =~= done);
            assert(views.take(row + 1).last() == lines@[row as int]@);
            let appended = line_words(lines@[row as int]@).map_values(
                |p: (int, Seq<char>)| (row as int, p.0, p.1),
            );
            assert(file_words(views.take(row + 1)) == file_words(done) + appended);
            assert(token_pairs(line_toks@) == line_words(lines@[row as int]@));
            assert forall|j: int|
                0 <= j < toks@.len() implies {
                    let t = #[trigger] toks@[j];
                    let w = file_words(views.take(row + 1))[j];
                    &&& t.path@ == path@
                    &&& t.row as int == w.0
                    &&& t.col as int == w.1
                    &&& t.word@ == w.2
                } by {
                if j < base.len() {
                    assert(toks@[j] == base[j]);
                } else {
                    let jj = j - base.len();
                    assert(toks@[j] == line_toks@[jj]);
                    assert(token_pairs(line_toks@)[jj] == (
                        line_toks@[jj].col as int,
                        line_toks@[jj].word@,
                    ));
                    assert(file_words(views.take(row + 1))[j] == appended[jj]);
                }
            }
        }
        row = row + 1;
    }
    proof {
        assert(line_views(lines@).take(lines@.len() as int) =~= line_views(lines@));
    }
    toks
}

/// Every triple of a tokenized file points at a true word of its line, and
/// the triples are strictly ascending by line, then by column.
pub proof fn lemma_file_words_sound(lines: Seq<Seq<char>>)
    ensures
        forall|j: int|
            0 <= j < file_words(lines).len() ==> {
                let t = #[trigger] file_words(lines)[j];
                &&& 0 <= t.0 < lines.len()
                &&& is_word_at(lines[t.0], t.1, t.2)
            },
        forall|a: int, b: int|
            0 <= a < b < file_words(lines).len() ==> {
                let x = #[trigger] file_words(lines)[a];
                let y = #[trigger] file_words(lines)[b];
                x.0 < y.0 || (x.0 == y.0 && x.1 < y.1)
            },
    decreases lines.len(),
{
    if lines.len() > 0 {
        lemma_file_words_sound(lines.drop_last());
        lemma_line_words_sound(lines.last());
        let head = file_words(lines.drop_last());
        let tail = line_words(lines.last()).map_values(
            |p: (int, Seq<char>)| ((lines.len() - 1) as int, p.0, p.1),
        );
        let r = file_words(lines);
        assert forall|j: int|
            0 <= j < r.len() implies {
                let t = #[trigger] r[j];
                &&& 0 <= t.0 < lines.len()
                &&& is_word_at(lines[t.0], t.1, t.2)
            } by {
            if j < head.len() {
                assert(r[j] == head[j]);
                assert(lines.drop_last()[r[j].0] == lines[r[j].0]);
            } else {
                assert(r[j] == tail[j - head.len()]);
            }
        }
        assert forall|a: int, b: int|
            0 <= a < b < r.len() implies {
                let x = #[trigger] r[a];
                let y = #[trigger] r[b];
                x.0 < y.0 || (x.0 == y.0 && x.1 < y.1)
            } by {
            if a < head.len() && b < head.len() {
                assert(r[a] == head[a] && r[b] == head[b]);
            } else if a < head.len() {
                assert(r[a] == head[a] && r[b] == tail[b - head.len()]);
                assert(head[a].0 < lines.len() - 1);
            } else {
                assert(r[a] == tail[a - head.len()] && r[b] == tail[b - head.len()]);
            }
        }
    }
}

/// Every occurrence of `word` in `line` at or after position `i`, by
/// starting column: the leftmost match first, later matches found after the
/// end of earlier ones, so reported occurrences never overlap.
pub open spec fn occurrences_from(line: Seq<char>, word: Seq<char>, i: int) -> Seq<int>
    decreases line.len() - i,
{
    if word.len() == 0 || i < 0 || i + word.len() > line.len() {
        Seq::empty()
    } else if line.subrange(i, i + word.len()) == word {
        seq![i] + occurrences_from(line, word, i + word.len())
    } else {
        occurrences_from(line, word, i + 1)
    }
}

/// The columns a token sequence records.
pub open spec fn token_cols(toks: Seq<PositionedToken>) -> Seq<int> {
    toks.map_values(|t: PositionedToken| t.col as int)
}

/// Find every occurrence of `token` in `line`: one positioned token per
/// occurrence, tagged with `path` and `row`, in ascending column order,
/// overlapping occurrences skipped as a plain left-to-right scan skips them.
pub fn find_tok_index(path: &str, row: usize, token: &str, line: &str) -> (r: Vec<
    PositionedToken,
>)
    requires
        token@.len() > 0,
    ensures
        token_cols(r@) == occurrences_from(line@, token@, 0),
        forall|j: int|
            0 <= j < r@.len() ==> (#[trigger] r@[j]).path@ == path@ && r@[j].row == row
                && r@[j].word@ == token@,
{
    let mut r: Vec<PositionedToken> = Vec::new();
    let tok_len = token.unicode_len();
    let len = line.unicode_len();
    if tok_len > len {
        proof {
            assert(token_cols(r@) =~= occurrences_from(line@, token@, 0));
        }
        return r;
    }
    let mut i: usize = 0;
    proof {
        assert(token_cols(r@) + occurrences_from(line@, token@, 0) =~= occurrences_from(
            line@,
            token@,
            0,
        ));
    }
    while i <= len - tok_len
        invariant
            0 <= i <= len,
            tok_len == token@.len(),
            0 < tok_len <= len,
            len == line@.len(),
            token_cols(r@) + occurrences_from(line@, token@, i as int) == occurrences_from(
                line@,
                token@,
                0,
            ),
            forall|j: int|
                0 <= j < r@.len() ==> (#[trigger] r@[j]).path@ == path@ && r@[j].row == row
                    && r@[j].word@ == token@,
        decreases len - i,
    {
        let mut k: usize = 0;
        let mut matched: bool = true;
        while k < tok_len && matched
            invariant
                0 <= k <= tok_len,
                tok_len == token@.len(),
                i + tok_len <= len,
                len == line@.len(),
                matched ==> forall|m: int| 0 <= m < k ==> line@[i + m] == token@[m],
                !matched ==> line@.subrange(i as int, i + tok_len) != token@,
            decreases tok_len - k + (if matched {
                1int
            } else {
                0int
            }),
        {
            let a = line.get_char(i + k);
            let b = token.get_char(k);
            if a != b {
                proof {
                    assert(line@.subrange(i as int, i + tok_len)[k as int] == line@[i + k]);
                }
                matched = false;
            } else {
                k = k + 1;
            }
        }
        if matched {
            proof {
                assert(line@.subrange(i as int, i + tok_len) =~= token@);
            }
            let t = PositionedToken {
                path: path.to_owned(),
                row,
                col: i,
                word: token.to_owned(),
            };
            let ghost prev = r@;
            r.push(t);
            proof {
                assert(token_cols(r@) =~= token_cols(prev) + seq![i as int]);
                assert(token_cols(r@) + occurrences_from(line@, token@, i + tok_len) =~= token_cols(
                    prev,
                ) + occurrences_from(line@, token@, i as int));
            }
            i = i + tok_len;
        } else {
            i = i + 1;
        }
    }
    proof {
        assert(occurrences_from(line@, token@, i as int) =~= Seq::<int>::empty());
        assert(token_cols(r@) =~= occurrences_from(line@, token@, 0));
    }
    r
}

} // verus!
