use vstd::prelude::*;
use crate::archive::{Archive, Node, ResolutionError};
use crate::cache::ImageCache;
use crate::character::{lemma_filter_split, not_info};
use crate::map::frames_ok;
use crate::sprite::{numbered, SpriteAnimation};
use crate::value::text_of;

verus! {

/// What an NPC can say, by key.
pub struct NPCInfo {
    pub speak: Vec<(String, String)>,
}

pub struct Npc {
    pub info: NPCInfo,
    pub actions: Vec<(String, SpriteAnimation)>,
}

pub open spec fn speak_node(a: Archive, n: int) -> int {
    a.child(n, "speak"@)->Some_0 as int
}

pub open spec fn npc_info_ok(a: Archive, n: int) -> bool {
    &&& a.child(n, "speak"@) is Some
    &&& forall|i: int|
        0 <= i < a.visible(speak_node(a, n)).len() ==> (#[trigger] text_of(a, a.visible(speak_node(a, n))[i] as int)) is Ok
}

/// What an NPC says, as read from node `n`.
pub open spec fn npc_info_of(info: NPCInfo, a: Archive, n: int) -> bool {
    &&& info.speak@.len() == a.visible(speak_node(a, n)).len()
    &&& forall|i: int|
        0 <= i < info.speak@.len() ==> (#[trigger] info.speak@[i]).0@ == a.name_of(a.visible(speak_node(a, n))[i] as int)
            && text_of(a, a.visible(speak_node(a, n))[i] as int) == Ok::<_, ResolutionError>(info.speak@[i].1@)
}

/// An NPC as read from node `n`: its lines, and an animation per other child.
pub open spec fn npc_of(npc: Npc, a: Archive, n: int) -> bool {
    &&& a.child(n, "info"@) is Some
    &&& npc_info_of(npc.info, a, a.child(n, "info"@)->Some_0 as int)
    &&& npc.actions@.len() == a.visible(n).filter(not_info(a)).len()
    &&& forall|i: int|
        0 <= i < npc.actions@.len() ==> (#[trigger] npc.actions@[i]).0@ == a.name_of(a.visible(n).filter(not_info(a))[i] as int)
            && npc.actions@[i].1.wf()
            && npc.actions@[i].1.frames@.len() == numbered(a, a.visible(n).filter(not_info(a))[i] as int).len()
}

impl NPCInfo {
    /// Reads the lines under `speak`, each a text child.
    pub fn from(a: &Archive, n: Node) -> (r: Result<NPCInfo, ResolutionError>)
        requires
            a.wf(),
            a.valid(n),
        ensures
            r is Ok <==> npc_info_ok(*a, n.id as int),
            r matches Ok(info) ==> npc_info_of(info, *a, n.id as int),
    {
        let s = match n.try_get(a, "speak") {
            Some(s) => s,
            None => return Err(ResolutionError::NotFound),
        };
        let kids = s.children(a);
        let ghost vis = a.visible(s.id as int);
        let mut speak: Vec<(String, String)> = Vec::new();
        let mut k: usize = 0;
        while k < kids.len()
            invariant
                a.wf(),
                s.id == speak_node(*a, n.id as int),
                vis == a.visible(s.id as int),
                kids@.len() == vis.len(),
                forall|i: int|
                    0 <= i < kids@.len() ==> (#[trigger] kids@[i]).1.id == vis[i] && kids@[i].0.name@ == a.name_of(
                        kids@[i].1.id as int,
                    ) && a.valid(kids@[i].1),
                k <= kids@.len(),
                speak@.len() == k,
                forall|i: int|
                    0 <= i < k ==> (#[trigger] speak@[i]).0@ == a.name_of(vis[i] as int) && text_of(*a, vis[i] as int)
                        == Ok::<_, ResolutionError>(speak@[i].1@),
                forall|i: int| 0 <= i < k ==> (#[trigger] text_of(*a, vis[i] as int)) is Ok,
            decreases kids@.len() - k,
        {
            let line = match kids[k].1.as_text(a) {
                Ok(t) => t,
                Err(e) => {
                    assert(text_of(*a, vis[k as int] as int) is Err);
                    return Err(e);
                },
            };
            speak.push((kids[k].0.to_string(), line));
            k = k + 1;
        }
        Ok(NPCInfo { speak })
    }
}

pub open spec fn npc_ok(a: Archive, n: int) -> bool {
    &&& a.child(n, "info"@) is Some
    &&& npc_info_ok(a, a.child(n, "info"@)->Some_0 as int)
    &&& forall|i: int|
        0 <= i < a.visible(n).filter(not_info(a)).len() ==> frames_ok(a, #[trigger] a.visible(n).filter(not_info(a))[i] as int)
}

impl Npc {
    /// Reads an NPC: its `info`, and each other child as an animation.
    pub fn from(a: &Archive, cache: &mut ImageCache, n: Node) -> (r: Result<Npc, ResolutionError>)
        requires
            a.wf(),
            a.valid(n),
        ensures
            old(cache).keys().is_prefix_of(final(cache).keys()),
            r is Ok <==> npc_ok(*a, n.id as int),
            r matches Ok(npc) ==> npc_of(npc, *a, n.id as int),
    {
        let info_node = match n.try_get(a, "info") {
            Some(i) => i,
            None => return Err(ResolutionError::NotFound),
        };
        let ghost info_id = info_node.id;
        let info = match NPCInfo::from(a, info_node) {
            Ok(i) => i,
            Err(e) => return Err(e),
        };
        let info_key = String::from_str("info");
        let kids = n.children(a);
        let ghost vis = a.visible(n.id as int);
        let ghost pred = not_info(*a);
        let ghost start = cache.keys();
        let mut actions: Vec<(String, SpriteAnimation)> = Vec::new();
        let mut k: usize = 0;
        while k < kids.len()
            invariant
                a.wf(),
                info_key@ == "info"@,
                vis == a.visible(n.id as int),
                pred == not_info(*a),
                kids@.len() == vis.len(),
                forall|i: int|
                    0 <= i < kids@.len() ==> (#[trigger] kids@[i]).1.id == vis[i] && kids@[i].0.name@ == a.name_of(
                        kids@[i].1.id as int,
                    ) && a.valid(kids@[i].1),
                k <= kids@.len(),
                actions@.len() == vis.take(k as int).filter(pred).len(),
                forall|i: int|
                    0 <= i < actions@.len() ==> (#[trigger] actions@[i]).0@ == a.name_of(
                        vis.take(k as int).filter(pred)[i] as int,
                    ) && actions@[i].1.wf() && actions@[i].1.frames@.len() == numbered(*a, vis.take(k as int).filter(pred)[i] as int).len(),
                forall|i: int|
                    0 <= i < vis.take(k as int).filter(pred).len() ==> frames_ok(
                        *a,
                        #[trigger] vis.take(k as int).filter(pred)[i] as int,
                    ),
                start == old(cache).keys(),
                start.is_prefix_of(cache.keys()),
                a.child(n.id as int, "info"@) == Some(info_id),
                npc_info_of(info, *a, info_id as int),
            decreases kids@.len() - k,
        {
            let ghost pre = vis.take(k as int);
            proof {
                assert(vis.take(k + 1) == pre.push(vis[k as int]));
                pre.lemma_filter_push(vis[k as int], pred);
            }
            if kids[k].0.name != info_key {
                let c = kids[k].1;
                let an = match SpriteAnimation::from(a, cache, c) {
                    Ok(an) => an,
                    Err(e) => {
                        proof {
                            let q = vis.take(k + 1).filter(pred);
                            assert(q == pre.filter(pred).push(c.id));
                            lemma_filter_split(vis, pred, k + 1);
                            assert(vis.filter(pred)[q.len() - 1] == c.id);
                            assert(!frames_ok(*a, c.id as int));
                        }
                        return Err(e);
                    },
                };
                proof {
                    assert(frames_ok(*a, c.id as int));
                }
                actions.push((kids[k].0.to_string(), an));
            }
            k = k + 1;
        }
        proof {
            assert(vis.take(k as int) == vis);
        }
        Ok(Npc { info, actions })
    }
}

} // verus!
