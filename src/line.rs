use vstd::prelude::*;

verus! {

/// The line terminator.
pub const NEWLINE: u8 = 10;

/// `s` holds no line terminator.
pub open spec fn no_newline(s: Seq<u8>) -> bool {
    forall|i: int| 0 <= i < s.len() ==> s[i] != NEWLINE
}

/// `l` is one complete line: bytes without a terminator, then the terminator.
pub open spec fn is_line(l: Seq<u8>) -> bool {
    &&& l.len() > 0
    &&& l.last() == NEWLINE
    &&& no_newline(l.drop_last())
}

/// The byte contents of a sequence of buffers.
pub open spec fn views(bufs: Seq<Vec<u8>>) -> Seq<Seq<u8>> {
    bufs.map_values(|b: Vec<u8>| b@)
}

/// `input` is cut into the complete lines `lines`, in order, followed by the
/// unterminated remainder `rest`.
pub open spec fn frames(input: Seq<u8>, lines: Seq<Seq<u8>>, rest: Seq<u8>) -> bool {
    &&& lines.flatten() + rest == input
    &&& forall|i: int| 0 <= i < lines.len() ==> is_line(#[trigger] lines[i])
    &&& no_newline(rest)
}

proof fn lemma_line_is_first_newline(input: Seq<u8>, l: Seq<u8>, k: int)
    requires
        is_line(l),
        l.is_prefix_of(input),
        0 <= k < input.len(),
        input[k] == NEWLINE,
    ensures
        l.len() <= k + 1,
{
    if k + 1 < l.len() {
        assert(l.drop_last()[k] == input[k]);
    }
}

/// There is one way only to cut an input into complete lines and an
/// unterminated rest.
pub proof fn lemma_frames_unique(
    input: Seq<u8>,
    lines1: Seq<Seq<u8>>,
    rest1: Seq<u8>,
    lines2: Seq<Seq<u8>>,
    rest2: Seq<u8>,
)
    requires
        frames(input, lines1, rest1),
        frames(input, lines2, rest2),
    ensures
        lines1 == lines2,
        rest1 == rest2,
    decreases lines1.len(),
{
    if lines1.len() == 0 || lines2.len() == 0 {
        if lines1.len() > 0 {
            let l = lines1[0];
            assert(input == l + (lines1.drop_first().flatten() + rest1));
            assert(input[l.len() - 1] == NEWLINE);
            assert(lines2.flatten() =~= Seq::<u8>::empty());
            assert(input =~= rest2);
        } else if lines2.len() > 0 {
            let l = lines2[0];
            assert(input == l + (lines2.drop_first().flatten() + rest2));
            assert(input[l.len() - 1] == NEWLINE);
            assert(lines1.flatten() =~= Seq::<u8>::empty());
            assert(input =~= rest1);
        } else {
            assert(lines1.flatten() =~= Seq::<u8>::empty());
            assert(lines2.flatten() =~= Seq::<u8>::empty());
            assert(rest1 =~= input);
            assert(rest2 =~= input);
            assert(lines1 =~= lines2);
        }
    } else {
        let a = lines1[0];
        let b = lines2[0];
        let tail1 = lines1.drop_first().flatten() + rest1;
        let tail2 = lines2.drop_first().flatten() + rest2;
        assert(input =~= a + tail1);
        assert(input =~= b + tail2);
        assert(a.is_prefix_of(input)) by {
            assert(input.subrange(0, a.len() as int) =~= a);
        }
        assert(b.is_prefix_of(input)) by {
            assert(input.subrange(0, b.len() as int) =~= b);
        }
        assert(input[a.len() - 1] == NEWLINE);
        assert(input[b.len() - 1] == NEWLINE);
        lemma_line_is_first_newline(input, a, b.len() - 1);
        lemma_line_is_first_newline(input, b, a.len() - 1);
        assert(a =~= b);
        assert(tail1 =~= input.subrange(a.len() as int, input.len() as int));
        assert(tail2 =~= input.subrange(a.len() as int, input.len() as int));
        let rest_input = input.subrange(a.len() as int, input.len() as int);
        assert(frames(rest_input, lines1.drop_first(), rest1)) by {
            assert forall|i: int| 0 <= i < lines1.drop_first().len() implies is_line(
                #[trigger] lines1.drop_first()[i],
            ) by {
                assert(is_line(lines1[i + 1]));
            }
        }
        assert(frames(rest_input, lines2.drop_first(), rest2)) by {
            assert forall|i: int| 0 <= i < lines2.drop_first().len() implies is_line(
                #[trigger] lines2.drop_first()[i],
            ) by {
                assert(is_line(lines2[i + 1]));
            }
        }
        lemma_frames_unique(rest_input, lines1.drop_first(), rest1, lines2.drop_first(), rest2);
        assert(lines1 =~= lines2) by {
            assert forall|i: int| 0 <= i < lines1.len() implies lines1[i] == lines2[i] by {
                if i > 0 {
                    assert(lines1[i] == lines1.drop_first()[i - 1]);
                    assert(lines2[i] == lines2.drop_first()[i - 1]);
                }
            }
        }
    }
}

/// Appends `data` to the unterminated bytes in `pending`, and takes out every
/// line that is now complete. `pending` keeps what follows the last terminator.
pub fn split_lines(pending: &mut Vec<u8>, data: &Vec<u8>) -> (lines: Vec<Vec<u8>>)
    requires
        no_newline(old(pending)@),
    ensures
        frames(old(pending)@ + data@, views(lines@), final(pending)@),
{
    let ghost input = old(pending)@ + data@;
    let ghost n: int = old(pending)@.len() as int;
    let mut current: Vec<u8> = Vec::new();
    std::mem::swap(pending, &mut current);
    let mut lines: Vec<Vec<u8>> = Vec::new();
    let mut i: usize = 0;
    assert(views(lines@).flatten() + current@ =~= input.subrange(0, n));
    while i < data.len()
        invariant
            i <= data.len(),
            input == old(pending)@ + data@,
            n == old(pending)@.len(),
            views(lines@).flatten() + current@ == input.subrange(0, n + i),
            forall|k: int| 0 <= k < lines.len() ==> is_line(#[trigger] views(lines@)[k]),
            no_newline(current@),
        decreases data.len() - i,
    {
        let b = data[i];
        let ghost before = current@;
        current.push(b);
        assert(input.subrange(0, n + i + 1) =~= input.subrange(
            0,
            n + i,
        ).push(b));
        if b == NEWLINE {
            assert(current@.drop_last() =~= before);
            let ghost old_lines = views(lines@);
            let ghost line = current@;
            lines.push(current);
            assert(views(lines@) =~= old_lines.push(line));
            proof {
                old_lines.lemma_flatten_push(line);
            }
            current = Vec::new();
            assert(current@ =~= Seq::<u8>::empty());
            assert(views(lines@).flatten() + current@ =~= old_lines.flatten() + line);
        } else {
            assert(views(lines@).flatten() + current@ =~= (views(lines@).flatten() + before).push(b));
        }
        i = i + 1;
    }
    assert(input.subrange(0, n + i) =~= input);
    *pending = current;
    lines
}

} // verus!
