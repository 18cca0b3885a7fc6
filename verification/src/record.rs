//! Records as the application stores them: a username, a password and
//! free-form notes, rendered into one plaintext string before encryption.

use vstd::prelude::*;
use vstd::string::{StrSliceExecFns, StringExecFns};

verus! {

/// One credential record as gathered from the user.
pub struct RecordData {
    pub username: String,
    pub password: String,
    pub other_info: Vec<String>,
}

/// The lines that the free-form notes contribute to the rendered record:
/// each note indented by a tab and a dash, one per line.
pub open spec fn info_lines(infos: Seq<Seq<char>>) -> Seq<char>
    decreases infos.len(),
{
    if infos.len() == 0 {
        Seq::empty()
    } else {
        "\t- "@ + infos[0] + "\n"@ + info_lines(infos.drop_first())
    }
}

/// The full rendering of a record: the username and password lines, then,
/// only if there are notes, a heading and one line per note.
pub open spec fn formatted_content(
    username: Seq<char>,
    password: Seq<char>,
    infos: Seq<Seq<char>>,
) -> Seq<char> {
    "username: "@ + username + "\npassword: "@ + password + "\n"@ + (if infos.len() == 0 {
        Seq::<char>::empty()
    } else {
        "other informations:\n"@ + info_lines(infos)
    })
}

/// Appending one note extends the rendered note lines by one line.
proof fn lemma_info_lines_push(infos: Seq<Seq<char>>, x: Seq<char>)
    ensures
        info_lines(infos.push(x)) == info_lines(infos) + "\t- "@ + x + "\n"@,
    decreases infos.len(),
{
    if infos.len() == 0 {
        assert(info_lines(Seq::<Seq<char>>::empty()) == Seq::<char>::empty());
        assert(infos =~= Seq::<Seq<char>>::empty());
        assert(infos.push(x)[0] == x);
        assert(infos.push(x).drop_first() =~= Seq::<Seq<char>>::empty());
        assert(info_lines(infos.push(x)) =~= info_lines(infos) + "\t- "@ + x + "\n"@);
    } else {
        assert(infos.push(x).drop_first() =~= infos.drop_first().push(x));
        lemma_info_lines_push(infos.drop_first(), x);
        assert(infos.push(x)[0] == infos[0]);
        assert(info_lines(infos.push(x)) =~= info_lines(infos) + "\t- "@ + x + "\n"@);
    }
}

/// Renders a record into the plaintext string that is encrypted: a username
/// line, a password line, and one indented line per free-form note under a
/// heading that appears only when there are notes.
pub fn format_content(record_data: RecordData) -> (content: String)
    ensures
        content@ == formatted_content(
            record_data.username@,
            record_data.password@,
            record_data.other_info.deep_view(),
        ),
{
    let ghost infos = record_data.other_info.deep_view();
    let mut content = String::from_str("username: ");
    content.append(record_data.username.as_str());
    content.append("\npassword: ");
    content.append(record_data.password.as_str());
    content.append("\n");
    let ghost head = content@;
    if record_data.other_info.len() > 0 {
        content.append("other informations:\n");
        let mut idx: usize = 0;
        while idx < record_data.other_info.len()
            invariant
                idx <= record_data.other_info.len(),
                infos == record_data.other_info.deep_view(),
                infos.len() == record_data.other_info.len(),
                content@ == head + "other informations:\n"@ + info_lines(
                    infos.take(idx as int),
                ),
            decreases record_data.other_info.len() - idx,
        {
            content.append("\t- ");
            content.append(record_data.other_info[idx].as_str());
            content.append("\n");
            proof {
                assert(infos[idx as int] == record_data.other_info[idx as int]@);
                assert(infos.take(idx + 1) =~= infos.take(idx as int).push(infos[idx as int]));
                lemma_info_lines_push(infos.take(idx as int), infos[idx as int]);
                assert(content@ =~= head + "other informations:\n"@ + info_lines(
                    infos.take(idx + 1),
                ));
            }
            idx = idx + 1;
        }
        proof {
            assert(infos.take(infos.len() as int) =~= infos);
            assert(content@ =~= formatted_content(
                record_data.username@,
                record_data.password@,
                infos,
            ));
        }
    } else {
        proof {
            assert(content@ =~= formatted_content(
                record_data.username@,
                record_data.password@,
                infos,
            ));
        }
    }
    content
}

} // verus!
