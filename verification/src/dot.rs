use vstd::prelude::*;

verus! {

/// What a character becomes in a Graphviz label: a backslash and a double quote are escaped,
/// and a line break ends a left-justified line.
pub open spec fn escaped_char(c: char) -> Seq<char> {
    if c == '\\' {
        seq!['\\', '\\']
    } else if c == '"' {
        seq!['\\', '"']
    } else if c == '\n' {
        seq!['\\', 'l']
    } else {
        seq![c]
    }
}

/// Each character of `s` as a Graphviz label writes it.
pub open spec fn escaped(s: Seq<char>) -> Seq<char>
    decreases s.len(),
{
    if s.len() == 0 {
        Seq::empty()
    } else {
        escaped(s.drop_last()) + escaped_char(s.last())
    }
}

/// `label` made fit for a Graphviz label: backslashes and double quotes escaped, each line
/// left-justified, the last one too.
pub fn escape_dot_label(label: &str) -> (res: String)
    ensures
        res@ == escaped(label@) + seq!['\\', 'l'],
{
    let n = label.unicode_len();
    let mut out = String::new();
    let mut i: usize = 0;
    while i < n
        invariant
            0 <= i <= n,
            n == label@.len(),
            out@ == escaped(label@.take(i as int)),
        decreases n - i,
    {
        let c = label.get_char(i);
        if c == '\\' {
            out.append("\\\\");
            proof {
                reveal_strlit("\\\\");
            }
        } else if c == '"' {
            out.append("\\\"");
            proof {
                reveal_strlit("\\\"");
            }
        } else if c == '\n' {
            out.append("\\l");
            proof {
                reveal_strlit("\\l");
            }
        } else {
            crate::text::push_char(&mut out, c);
        }
        proof {
            assert(label@.take(i + 1).drop_last() =~= label@.take(i as int));
            assert(out@ =~= escaped(label@.take(i + 1)));
        }
        i = i + 1;
    }
    out.append("\\l");
    proof {
        reveal_strlit("\\l");
        assert(label@.take(n as int) =~= label@);
    }
    out
}

} // verus!
