use vstd::prelude::*;

verus! {

use vstd::utf8::{
    encode_utf8, encode_scalar, is_char_boundary, valid_utf8, encode_utf8_valid_utf8,
    encode_utf8_decode_utf8, is_char_boundary_start_end_of_seq,
    is_char_boundary_iff_not_is_continuation_byte,
};
use vstd::string::StringExecFns;
use vstd::string::StringSliceAdditionalSpecFns;
use unicode_segmentation::UnicodeSegmentation;
use crate::strings::push_char;

/// The length in bytes of the UTF-8 encoding of a character sequence.
pub open spec fn byte_len(s: Seq<char>) -> nat {
    encode_utf8(s).len()
}

pub proof fn lemma_encode_concat(a: Seq<char>, b: Seq<char>)
    ensures
        encode_utf8(a + b) == encode_utf8(a) + encode_utf8(b),
    decreases a.len(),
{
    if a.len() == 0 {
        assert(a + b =~= b);
        assert(encode_utf8(a) + encode_utf8(b) =~= encode_utf8(b));
    } else {
        assert((a + b).drop_first() =~= a.drop_first() + b);
        assert((a + b)[0] == a[0]);
        lemma_encode_concat(a.drop_first(), b);
        assert(encode_utf8(a + b) =~= encode_utf8(a) + encode_utf8(b));
    }
}

pub proof fn lemma_encode_single(c: char)
    ensures
        encode_utf8(seq![c]) == encode_scalar(c as u32),
        1 <= encode_scalar(c as u32).len() <= 4,
{
    reveal_with_fuel(vstd::utf8::encode_utf8, 2);
    assert(seq![c].drop_first() =~= Seq::<char>::empty());
    assert(encode_utf8(seq![c]) =~= encode_scalar(c as u32));
}

/// The byte length of an encoded character prefix is a character boundary of
/// the whole encoding.
pub proof fn lemma_prefix_boundary(s: Seq<char>, k: int)
    requires
        0 <= k <= s.len(),
    ensures
        is_char_boundary(encode_utf8(s), byte_len(s.take(k)) as int),
        byte_len(s.take(k)) <= byte_len(s),
{
    let b = encode_utf8(s);
    let b1 = encode_utf8(s.take(k));
    let b2 = encode_utf8(s.skip(k));
    lemma_encode_concat(s.take(k), s.skip(k));
    assert(s.take(k) + s.skip(k) =~= s);
    assert(b == b1 + b2);
    encode_utf8_valid_utf8(s);
    if k == s.len() {
        assert(s.skip(k) =~= Seq::<char>::empty());
        assert(b1.len() == b.len());
        is_char_boundary_start_end_of_seq(b);
    } else {
        let rest = s.skip(k);
        assert(rest.len() > 0);
        assert(encode_utf8(rest) == encode_scalar(rest[0] as u32) + encode_utf8(
            rest.drop_first(),
        ));
        lemma_encode_single(rest[0]);
        assert(b2.len() > 0);
        encode_utf8_valid_utf8(rest);
        assert(valid_utf8(b2));
        assert(b[b1.len() as int] == b2[0]);
        is_char_boundary_iff_not_is_continuation_byte(b, b1.len() as int);
    }
}

/// Equal encodings come from equal character sequences.
pub proof fn lemma_encode_injective(a: Seq<char>, b: Seq<char>)
    requires
        encode_utf8(a) == encode_utf8(b),
    ensures
        a == b,
{
    encode_utf8_decode_utf8(a);
    encode_utf8_decode_utf8(b);
}

/// The number of characters in the last grapheme cluster of a non-empty
/// character sequence.
pub uninterp spec fn last_cluster_chars(s: Seq<char>) -> nat;

/// Relies on `unicode_segmentation::UnicodeSegmentation::graphemes`: the
/// grapheme cluster boundaries of a string depend on its characters alone,
/// and the last cluster of a non-empty string is a non-empty suffix of whole
/// characters. Returns that cluster's length in bytes and in characters.
#[verifier::external_body]
fn last_grapheme_len(s: &str) -> (r: (usize, usize))
    requires
        s@.len() > 0,
    ensures
        r.1 == last_cluster_chars(s@),
        0 < r.1 && r.1 <= s@.len(),
        r.0 == byte_len(s@.skip(s@.len() - r.1)),
{
    match s.graphemes(true).last() {
        Some(cluster) => (cluster.len(), cluster.chars().count()),
        None => (0, 0),
    }
}

/// Relies on `str::len`: the length in bytes, which for any real string
/// fits in `usize`.
#[verifier::external_body]
fn byte_length(s: &str) -> (n: usize)
    ensures
        n == byte_len(s@),
{
    s.len()
}

/// The events the command-line editor reacts to.
#[derive(Clone, Copy, Debug)]
pub enum EditorEvent {
    /// A printable character was typed.
    Char(char),
    /// Delete the cluster before the cursor.
    Backspace,
    /// The line was submitted.
    Submit,
    /// Completion was requested.
    Trigger,
}

/// What the host must do after the editor handled an event.
pub enum EditorAction {
    /// Nothing further; redraw.
    Consumed,
    /// The event was not for the editor.
    Ignored,
    /// Run the submit callback on this line.
    Submitted(String),
    /// Query completion for this line and open the popup when any choice
    /// comes back.
    Autocomplete(String),
}

/// The single-line command editor: the current text and a byte cursor that
/// always sits on a character boundary.
pub struct CliView {
    pub content: String,
    pub cursor: usize,
    pub cursor_chars: Ghost<int>,
}

impl CliView {
    /// The cursor is the byte length of the encoding of the first
    /// `cursor_chars` characters of the content.
    pub open spec fn wf(&self) -> bool {
        &&& 0 <= self.cursor_chars@ <= self.content@.len()
        &&& self.cursor as nat == byte_len(self.content@.take(self.cursor_chars@))
    }

    pub fn new() -> (v: CliView)
        ensures
            v.wf(),
            v.content@ == Seq::<char>::empty(),
            v.cursor == 0,
            v.cursor_chars@ == 0,
    {
        let v = CliView { content: String::new(), cursor: 0, cursor_chars: Ghost(0) };
        proof {
            assert(v.content@.take(0) =~= Seq::<char>::empty());
        }
        v
    }

    /// Inserts the character's encoded bytes at the cursor and advances the
    /// cursor by the character's encoded byte length. Never fails.
    pub fn insert(&mut self, ch: char)
        requires
            old(self).wf(),
        ensures
            final(self).wf(),
            final(self).content@ == old(self).content@.take(old(self).cursor_chars@).push(ch)
                + old(self).content@.skip(old(self).cursor_chars@),
            final(self).cursor_chars@ == old(self).cursor_chars@ + 1,
            final(self).cursor == old(self).cursor + encode_scalar(ch as u32).len(),
    {
        let ghost k = self.cursor_chars@;
        let ghost chars = self.content@;
        proof {
            lemma_prefix_boundary(chars, k);
        }
        let (a, b) = self.content.as_str().split_at(self.cursor);
        proof {
            lemma_split_pieces(chars, k, a@, b@);
        }
        let mut newc = a.to_owned();
        push_char(&mut newc, ch);
        let new_cursor = byte_length(newc.as_str());
        proof {
            assert(newc@ =~= chars.take(k) + seq![ch]);
            lemma_encode_concat(chars.take(k), seq![ch]);
            lemma_encode_single(ch);
        }
        newc.append(b);
        self.content = newc;
        self.cursor = new_cursor;
        proof {
            self.cursor_chars@ = k + 1;
            assert(self.content@ == chars.take(k).push(ch) + chars.skip(k)) by {
                assert(chars.take(k) + seq![ch] =~= chars.take(k).push(ch));
            }
            assert(self.content@.take(k + 1) =~= chars.take(k) + seq![ch]);
        }
    }

    /// Deletes the whole grapheme cluster just before the cursor and moves
    /// the cursor back by exactly that cluster's encoded byte length; with
    /// the cursor at the start of the line nothing changes.
    pub fn backspace(&mut self)
        requires
            old(self).wf(),
        ensures
            final(self).wf(),
            old(self).cursor == 0 ==> *final(self) == *old(self),
            old(self).cursor > 0 ==> ({
                let k = old(self).cursor_chars@;
                let m = last_cluster_chars(old(self).content@.take(k)) as int;
                &&& 0 < m <= k
                &&& final(self).content@ == old(self).content@.take(k - m) + old(
                    self,
                ).content@.skip(k)
                &&& final(self).cursor_chars@ == k - m
                &&& old(self).cursor - final(self).cursor == byte_len(
                    old(self).content@.subrange(k - m, k),
                )
            }),
    {
        if self.cursor == 0 {
            return ;
        }
        let ghost k = self.cursor_chars@;
        let ghost chars = self.content@;
        proof {
            lemma_prefix_boundary(chars, k);
            if k == 0 {
                assert(chars.take(0) =~= Seq::<char>::empty());
                assert(byte_len(chars.take(0)) == 0);
            }
        }
        let (a, b) = self.content.as_str().split_at(self.cursor);
        proof {
            lemma_split_pieces(chars, k, a@, b@);
            assert(a@.len() > 0) by {
                if a@.len() == 0 {
                    assert(byte_len(a@) == 0);
                }
            }
        }
        let grapheme = last_grapheme_len(a);
        let n = grapheme.0;
        let ghost m = last_cluster_chars(a@) as int;
        proof {
            lemma_encode_concat(a@.take(k - m), a@.skip(k - m));
            assert(a@.take(k - m) + a@.skip(k - m) =~= a@);
            assert(byte_len(a@) == byte_len(a@.take(k - m)) + byte_len(a@.skip(k - m)));
            assert(byte_len(a@) == self.cursor);
            assert(a@.take(k - m) =~= chars.take(k - m));
            lemma_prefix_boundary(a@, k - m);
        }
        let start = self.cursor - n;
        let (a2, _tail) = a.split_at(start);
        proof {
            lemma_split_pieces(a@, k - m, a2@, _tail@);
        }
        let mut newc = a2.to_owned();
        newc.append(b);
        self.content = newc;
        self.cursor = start;
        proof {
            self.cursor_chars@ = k - m;
            assert(self.content@ == chars.take(k - m) + chars.skip(k));
            assert(self.content@.take(k - m) =~= chars.take(k - m));
            assert(a@.skip(k - m) =~= chars.subrange(k - m, k));
        }
    }

    /// Replaces the text wholesale and puts the cursor at the end.
    pub fn set_content(&mut self, content: String)
        ensures
            final(self).wf(),
            final(self).content@ == content@,
            final(self).cursor == byte_len(content@),
            final(self).cursor_chars@ == content@.len(),
    {
        let n = byte_length(content.as_str());
        let ghost len = content@.len() as int;
        self.content = content;
        self.cursor = n;
        proof {
            self.cursor_chars@ = len;
            assert(self.content@.take(len) =~= self.content@);
        }
    }

    /// Moves the cursor to a byte offset that is known to be a character
    /// boundary of the content.
    pub fn set_cursor(&mut self, cursor: usize)
        requires
            exists|k: int|
                0 <= k <= old(self).content@.len() && cursor as nat == byte_len(
                    #[trigger] old(self).content@.take(k),
                ),
        ensures
            final(self).wf(),
            final(self).content == old(self).content,
            final(self).cursor == cursor,
    {
        self.cursor = cursor;
        proof {
            let k = choose|k: int|
                0 <= k <= self.content@.len() && cursor as nat == byte_len(
                    #[trigger] self.content@.take(k),
                );
            self.cursor_chars@ = k;
        }
    }

    /// Handles one editor event: characters are inserted at the cursor, a
    /// backspace with a non-empty line deletes one cluster (and is otherwise
    /// not consumed), submission and completion hand the current line back
    /// to the host.
    pub fn on_event(&mut self, event: EditorEvent) -> (action: EditorAction)
        requires
            old(self).wf(),
        ensures
            final(self).wf(),
            ({
                match event {
                    EditorEvent::Char(c) => final(self).content@ == old(self).content@.take(
                        old(self).cursor_chars@,
                    ).push(c) + old(self).content@.skip(old(self).cursor_chars@) && final(self).cursor == old(self).cursor + encode_scalar(c as u32).len() && (action
                        matches EditorAction::Consumed),
                    EditorEvent::Backspace => if old(self).cursor > 0 {
                        ({
                            let k = old(self).cursor_chars@;
                            let m = last_cluster_chars(old(self).content@.take(k)) as int;
                            final(self).content@ == old(self).content@.take(k - m)
                                + old(self).content@.skip(k) && old(self).cursor - final(self).cursor == byte_len(
                                old(self).content@.subrange(k - m, k),
                            )
                        }) && (action matches EditorAction::Consumed)
                    } else {
                        *final(self) == *old(self) && (action matches EditorAction::Ignored)
                    },
                    EditorEvent::Submit => *final(self) == *old(self) && (action
                        matches EditorAction::Submitted(line) && line@ == old(self).content@),
                    EditorEvent::Trigger => *final(self) == *old(self) && (action
                        matches EditorAction::Autocomplete(line) && line@ == old(self).content@),
                }
            }),
    {
        match event {
            EditorEvent::Char(c) => {
                self.insert(c);
                EditorAction::Consumed
            },
            EditorEvent::Backspace => {
                if self.cursor > 0 {
                    self.backspace();
                    EditorAction::Consumed
                } else {
                    EditorAction::Ignored
                }
            },
            EditorEvent::Submit => EditorAction::Submitted(self.content.clone()),
            EditorEvent::Trigger => EditorAction::Autocomplete(self.content.clone()),
        }
    }
}

/// The two pieces a split at an encoded-prefix boundary yields are exactly
/// the character prefix and suffix.
proof fn lemma_split_pieces(chars: Seq<char>, k: int, av: Seq<char>, bv: Seq<char>)
    requires
        0 <= k <= chars.len(),
        encode_utf8(av) =~= encode_utf8(chars).subrange(0, byte_len(chars.take(k)) as int),
        encode_utf8(bv) =~= encode_utf8(chars).subrange(
            byte_len(chars.take(k)) as int,
            encode_utf8(chars).len() as int,
        ),
    ensures
        av == chars.take(k),
        bv == chars.skip(k),
        byte_len(av) == byte_len(chars.take(k)),
        byte_len(bv) == byte_len(chars.skip(k)),
{
    lemma_encode_concat(chars.take(k), chars.skip(k));
    assert(chars.take(k) + chars.skip(k) =~= chars);
    let b = encode_utf8(chars);
    let b1 = encode_utf8(chars.take(k));
    let b2 = encode_utf8(chars.skip(k));
    assert(b == b1 + b2);
    assert(b.subrange(0, b1.len() as int) =~= b1);
    assert(b.subrange(b1.len() as int, b.len() as int) =~= b2);
    lemma_encode_injective(av, chars.take(k));
    lemma_encode_injective(bv, chars.skip(k));
}

} // verus!
