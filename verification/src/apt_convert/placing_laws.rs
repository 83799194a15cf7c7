//! What a timeline keeps on its way from an APT movie to a SWF file and back.
use super::avm1::{self, Texts};
use super::building;
use super::reading;
use super::recovering;
use super::swf_model as scene;
use super::swf_movie::PlaceAction;
use super::swf_read::Placing;
use super::Trouble;
use crate::apt::file_format::{half, lemma_half};
use crate::apt::model::{Control, EventAction, Frame, PlaceObject};
use vstd::prelude::*;

verus! {

/// Whether a depth is one that a SWF file can name.
pub open spec fn nameable(n: i32) -> bool {
    0 <= n <= 0xFFFF
}

/// Whether a handler of a SWF file is that of an APT movie: it waits for the same events
/// and the same key, and does the same.
pub open spec fn same_handler(h: scene::ClipHandler, e: EventAction, texts: Texts) -> bool {
    &&& h.events < 0x8_0000
    &&& 0 <= e.triggers < 0x8_0000 ==> h.events == e.triggers
    &&& h.key_code is None == (e.key_code == 0)
    &&& h.key_code matches Some(k) ==> (0 <= e.key_code <= 0xFF ==> k == e.key_code)
    &&& h.code == avm1::code(e.actions, texts)
}

/// Whether a placement of a SWF file is that of an APT movie: the same character at the
/// same depth under the same name, moved, colored, clipped and filtered in the same way.
pub open spec fn same_place(t: scene::Place, p: PlaceObject, texts: Texts) -> bool {
    &&& nameable(p.depth) ==> t.depth == p.depth
    &&& t.matrix == p.matrix
    &&& t.cxform == p.cxform
    &&& t.ratio == p.ratio
    &&& t.name == p.name
    &&& t.filters == p.filters
    &&& t.clip_depth is Some == p.clip_depth is Some
    &&& p.clip_depth matches Some(d) ==> (nameable(d) ==> t.clip_depth == Some(d as u16))
    &&& t.action is Modify == (p.is_move && p.character_id is None)
    &&& t.action is Place == !p.is_move
    &&& p.character_id matches Some(id) ==> (nameable(id) ==> t.action == if p.is_move {
        PlaceAction::Replace(id as u16)
    } else {
        PlaceAction::Place(id as u16)
    })
    &&& t.version == 3 || t.version == 2
    &&& t.version == 2 <==> (p.blend_mode is None && p.filters.len() == 0)
    &&& t.blend_mode == match p.blend_mode {
        Some(b) => if b == 0 || b == 1 {
            Some(0u8)
        } else if 2 <= b <= 14 {
            Some(b as u8)
        } else {
            None
        },
        None => None,
    }
    &&& t.clip_actions is Some == p.clip_actions is Some
    &&& p.clip_actions matches Some(v) ==> {
        let w = t.clip_actions->0;
        &&& w.len() == v.len()
        &&& forall|i: int| 0 <= i < v.len() ==> same_handler(#[trigger] w[i], v[i], texts)
    }
}

/// Whether a tag is that of a control.
pub open spec fn same_control(t: scene::TimelineTag, c: Control, texts: Texts) -> bool {
    match c {
        Control::Action(s) => t == scene::TimelineTag::DoAction(avm1::code(s, texts)),
        Control::InitAction { sprite_id, actions } => t matches scene::TimelineTag::DoInitAction {
            id,
            code,
        } && code == avm1::code(actions, texts) && (nameable(sprite_id) ==> id == sprite_id),
        Control::PlaceObject(p) => t matches scene::TimelineTag::Place(q) && same_place(
            q,
            p,
            texts,
        ),
        Control::RemoveObject { depth } => t matches scene::TimelineTag::RemoveObject {
            depth: d,
        } && (nameable(depth) ==> d == depth),
        Control::FrameLabel(s) => t == scene::TimelineTag::FrameLabel(s),
        _ => false,
    }
}

/// Whether a control has a tag in a timeline. Sounds have none, and the background color
/// stands before the timeline.
pub open spec fn tagged(c: Control) -> bool {
    !(c is BackgroundColor || c is StartSound || c is StartSoundStream)
}

/// How many of the first `j` controls have a tag.
pub open spec fn tags_before(v: Seq<Control>, j: int) -> int
    decreases j,
{
    if j <= 0 {
        0
    } else {
        tags_before(v, j - 1) + if tagged(v[j - 1]) {
            1int
        } else {
            0
        }
    }
}

/// How many tags the first `i` frames take: those of their controls, and one that shows
/// each.
pub open spec fn frame_start(v: Seq<Frame>, i: int) -> int
    decreases i,
{
    if i <= 0 {
        0
    } else {
        frame_start(v, i - 1) + tags_before(
            v[i - 1].controls,
            v[i - 1].controls.len() as int,
        ) + 1
    }
}

/// Whether the `i`-th frame has its tags: each control where the frames and controls
/// before it leave off, and behind them one that shows the frame.
#[verifier::opaque]
pub open spec fn same_frame(
    w: Seq<scene::TimelineTag>,
    v: Seq<Frame>,
    i: int,
    texts: Texts,
) -> bool {
    &&& 0 <= frame_start(v, i) < frame_start(v, i + 1) <= w.len()
    &&& w[frame_start(v, i + 1) - 1] is ShowFrame
    &&& forall|j: int|
        0 <= j < v[i].controls.len() && tagged(v[i].controls[j]) ==> frame_start(v, i)
            + tags_before(v[i].controls, j) < w.len() && same_control(
            w[frame_start(v, i) + tags_before(v[i].controls, j)],
            #[trigger] v[i].controls[j],
            texts,
        )
}

/// Whether tags are those of the frames, one after another.
pub open spec fn same_timeline(w: Seq<scene::TimelineTag>, v: Seq<Frame>, texts: Texts) -> bool {
    &&& w.len() == frame_start(v, v.len() as int)
    &&& forall|i: int| 0 <= i < v.len() ==> #[trigger] same_frame(w, v, i, texts)
}

proof fn lemma_handler(e: EventAction, texts: Texts)
    ensures
        same_handler(building::handler(e, texts), e, texts),
{
    let w = e.triggers as u32;
    if 0 <= e.triggers < 0x8_0000 {
        assert(w == e.triggers);
    }
}

/// A placement becomes one with the same matrix, depth, character, name, clip depth,
/// colors, filters and handlers.
pub proof fn law_place(p: PlaceObject, texts: Texts)
    ensures
        same_place(building::place(p, texts), p, texts),
{
    if let Some(v) = p.clip_actions {
        assert forall|i: int| 0 <= i < v.len() implies same_handler(
            #[trigger] building::handlers(v, texts)[i],
            v[i],
            texts,
        ) by {
            lemma_handler(v[i], texts);
        }
    }
}

proof fn lemma_control(c: Control, texts: Texts)
    ensures
        tagged(c) ==> building::control_tags(c, texts).len() == 1 && same_control(
            building::control_tags(c, texts)[0],
            c,
            texts,
        ),
        !tagged(c) ==> building::control_tags(c, texts).len() == 0,
{
    if let Control::PlaceObject(p) = c {
        law_place(p, texts);
    }
}

proof fn lemma_controls(v: Seq<Control>, texts: Texts, n: nat)
    requires
        n <= v.len(),
    ensures
        building::controls_tags(v, texts, n).len() == tags_before(v, n as int),
        forall|j: int|
            0 <= j < n && tagged(v[j]) ==> 0 <= tags_before(v, j) < tags_before(v, n as int)
                && same_control(
                building::controls_tags(v, texts, n)[tags_before(v, j)],
                #[trigger] v[j],
                texts,
            ),
    decreases n,
{
    if n > 0 {
        let m = (n - 1) as nat;
        lemma_controls(v, texts, m);
        lemma_control(v[m as int], texts);
        let a = building::controls_tags(v, texts, m);
        let b = building::controls_tags(v, texts, n);
        assert forall|j: int| 0 <= j < n && tagged(v[j]) implies 0 <= tags_before(v, j)
            < tags_before(v, n as int) && same_control(
            b[tags_before(v, j)],
            #[trigger] v[j],
            texts,
        ) by {
            if j < m {
                assert(b[tags_before(v, j)] == a[tags_before(v, j)]);
            } else {
                assert(b[a.len() as int] == building::control_tags(v[j], texts)[0]);
            }
        }
    }
}

proof fn lemma_tags_before(v: Seq<Control>, j: int)
    ensures
        0 <= tags_before(v, j),
    decreases j,
{
    if j > 0 {
        lemma_tags_before(v, j - 1);
    }
}

/// More tags behind leave a frame as it is.
proof fn lemma_kept(
    a: Seq<scene::TimelineTag>,
    w: Seq<scene::TimelineTag>,
    v: Seq<Frame>,
    i: int,
    texts: Texts,
)
    requires
        same_frame(a, v, i, texts),
        a.len() <= w.len(),
        forall|k: int| 0 <= k < a.len() ==> w[k] == #[trigger] a[k],
    ensures
        same_frame(w, v, i, texts),
{
    reveal(same_frame);
    let u = v[i].controls;
    assert forall|j: int| 0 <= j < u.len() && tagged(u[j]) implies frame_start(v, i)
        + tags_before(u, j) < w.len() && same_control(
        w[frame_start(v, i) + tags_before(u, j)],
        #[trigger] u[j],
        texts,
    ) by {
        lemma_tags_before(u, j);
        let k = frame_start(v, i) + tags_before(u, j);
        assert(w[k] == a[k]);
    }
    assert(w[frame_start(v, i + 1) - 1] == a[frame_start(v, i + 1) - 1]);
}

proof fn lemma_last(v: Seq<Frame>, texts: Texts, m: nat)
    requires
        m < v.len(),
        building::frames_tags(v, texts, m).len() == frame_start(v, m as int),
    ensures
        building::frames_tags(v, texts, m + 1).len() == frame_start(v, m as int + 1),
        same_frame(building::frames_tags(v, texts, m + 1), v, m as int, texts),
{
    reveal(same_frame);
    let f = v[m as int].controls;
    lemma_controls(f, texts, f.len());
    let a = building::frames_tags(v, texts, m);
    let c = building::controls_tags(f, texts, f.len());
    let w = building::frames_tags(v, texts, m + 1);
    assert(w == (a + c).push(scene::TimelineTag::ShowFrame));
    assert forall|j: int| 0 <= j < f.len() && tagged(f[j]) implies frame_start(v, m as int)
        + tags_before(f, j) < w.len() && same_control(
        w[frame_start(v, m as int) + tags_before(f, j)],
        #[trigger] f[j],
        texts,
    ) by {
        let k = tags_before(f, j);
        assert(w[a.len() + k] == c[k]);
    }
}

proof fn lemma_frames(v: Seq<Frame>, texts: Texts, n: nat)
    requires
        n <= v.len(),
    ensures
        building::frames_tags(v, texts, n).len() == frame_start(v, n as int),
        forall|i: int|
            0 <= i < n ==> #[trigger] same_frame(
                building::frames_tags(v, texts, n),
                v,
                i,
                texts,
            ),
    decreases n,
{
    if n > 0 {
        let m = (n - 1) as nat;
        lemma_frames(v, texts, m);
        lemma_last(v, texts, m);
        let a = building::frames_tags(v, texts, m);
        let w = building::frames_tags(v, texts, n);
        assert forall|i: int| 0 <= i < n implies #[trigger] same_frame(w, v, i, texts) by {
            if i < m {
                assert(same_frame(a, v, i, texts));
                lemma_kept(a, w, v, i, texts);
            }
        }
    }
}

/// The timeline of a movie becomes one that does the same, frame by frame and control by
/// control.
pub proof fn law_timeline(v: Seq<Frame>, texts: Texts)
    ensures
        same_timeline(building::frames_tags(v, texts, v.len()), v, texts),
{
    lemma_frames(v, texts, v.len());
}

/// Whether what was read of a placement is what a placement to be written says.
pub open spec fn carried(q: recovering::Placed, t: scene::Place) -> bool {
    &&& q.core.depth == t.depth
    &&& q.core.name == t.name
    &&& q.core.clip_depth == t.clip_depth
    &&& q.core.action == match t.action {
        PlaceAction::Place(id) => Placing::Place(id),
        PlaceAction::Modify => Placing::Modify,
        PlaceAction::Replace(id) => Placing::Replace(id),
    }
    &&& q.matrix is Some == t.matrix is Some
    &&& q.colors is Some == t.cxform is Some
    &&& q.clips == t.clip_actions
}

/// Whether a placement recovered from a SWF file is what the file says of it: depth,
/// character, name, clip depth, blend mode, and whether it has a matrix, colors, a ratio
/// and handlers.
pub open spec fn recovered(o: PlaceObject, q: recovering::Placed) -> bool {
    &&& o.depth == q.core.depth
    &&& o.name == q.core.name
    &&& o.is_move == (q.core.action is Modify || q.core.action is Replace)
    &&& o.character_id is None == (q.core.action is Modify || q.core.action is Nothing)
    &&& q.core.action matches Placing::Place(id) ==> o.character_id == Some(id as i32)
    &&& q.core.action matches Placing::Replace(id) ==> o.character_id == Some(id as i32)
    &&& o.clip_depth is Some == q.core.clip_depth is Some
    &&& o.clip_depth matches Some(d) ==> d == q.core.clip_depth->0
    &&& o.blend_mode is Some == q.core.blend_mode is Some
    &&& o.blend_mode matches Some(b) ==> b == q.core.blend_mode->0
    &&& o.matrix is Some == q.matrix is Some
    &&& o.cxform is Some == q.colors is Some
    &&& o.ratio is Some == q.core.ratio is Some
    &&& o.clip_actions is Some == q.clips is Some
    &&& o.clip_actions matches Some(v) ==> {
        let w = q.clips->0;
        &&& v.len() == w.len()
        &&& forall|i: int|
            #![trigger v[i]]
            0 <= i < v.len() ==> {
                &&& v[i].triggers == w[i].events as i32
                &&& v[i].key_code == match w[i].key_code {
                    Some(k) => k as i32,
                    None => 0,
                }
                &&& reading::block(w[i].code) matches Ok(s) ==> v[i].actions == s
            }
    }
}

/// A placement recovered from a SWF file is at the depth that the file gives it, shows
/// the character that it names, and has the name, the clip depth and everything else that
/// it has there.
pub proof fn law_recovered(q: recovering::Placed)
    ensures
        recovered(recovering::place_object(q), q),
{
}

/// Placements at different depths of a SWF file are at different depths of the movie.
pub proof fn law_depths_differ(a: recovering::Placed, b: recovering::Placed)
    requires
        a.core.depth != b.core.depth,
    ensures
        recovering::place_object(a).depth != recovering::place_object(b).depth,
{
}

/// A placement that is put into a SWF file and recovered from it is at its depth, shows
/// its character, and keeps its name and clip depth; it has a matrix, colors and
/// handlers exactly where it had.
pub proof fn law_place_roundtrip(p: PlaceObject, texts: Texts, q: recovering::Placed)
    requires
        carried(q, building::place(p, texts)),
        nameable(p.depth),
        p.character_id matches Some(id) ==> nameable(id),
        p.clip_depth matches Some(d) ==> nameable(d),
        p.character_id is Some || p.is_move,
    ensures
        ({
            let o = recovering::place_object(q);
            &&& o.depth == p.depth
            &&& o.is_move == p.is_move
            &&& o.character_id == p.character_id
            &&& o.name == p.name
            &&& o.clip_depth == p.clip_depth
            &&& o.matrix is Some == p.matrix is Some
            &&& o.cxform is Some == p.cxform is Some
            &&& o.clip_actions is Some == p.clip_actions is Some
        }),
{
    law_place(p, texts);
    law_recovered(q);
}

/// A removal takes the depth from the end of its tag: behind the character, which the
/// older kind of tag has. So what a removal removes is what was placed at that depth.
pub proof fn law_removal(code: u16, body: Seq<u8>, depth: u16)
    requires
        code == 5 || code == 28,
        body.len() == if code == 5 {
            4nat
        } else {
            2nat
        },
        half(body, body.len() - 2) == depth,
    ensures
        recovering::removal(code, body) == Ok::<Control, Trouble>(
            Control::RemoveObject { depth: depth as i32 },
        ),
{
    lemma_half(body, 0);
    lemma_half(body, 2);
}

/// Removing what was placed: a placement and a removal at one depth of a SWF file are at
/// one depth of the movie.
pub proof fn law_removed(q: recovering::Placed, code: u16, body: Seq<u8>)
    requires
        code == 5 || code == 28,
        body.len() == if code == 5 {
            4nat
        } else {
            2nat
        },
        half(body, body.len() - 2) == q.core.depth,
    ensures
        recovering::removal(code, body) == Ok::<Control, Trouble>(
            Control::RemoveObject { depth: recovering::place_object(q).depth },
        ),
{
    law_removal(code, body, q.core.depth);
}

} // verus!
