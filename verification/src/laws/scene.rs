//! Laws of what is shown over a document.

use vstd::prelude::*;

use crate::features::context::{
    picker_layer, prompt_layer, Choice, Layer, PickerOwner, Purpose, Scene,
};

verus! {

/// Two scenes show the same but for the topmost layer.
pub open spec fn same_beneath(a: Scene, b: Scene) -> bool {
    &&& a.root == b.root
    &&& a.item == b.item
    &&& a.status == b.status
    &&& a.layers.len() == b.layers.len()
    &&& forall|i: int| 0 <= i < a.layers.len() - 1 ==> #[trigger] a.layers[i] == b.layers[i]
}

/// A message changes what the status row says, and nothing else.
pub proof fn messages_change_the_status_alone(scene: Scene, text: Seq<char>)
    ensures
        scene.said(text).status == Some(text),
        scene.said(text).layers == scene.layers,
        scene.said(text).root == scene.root,
        scene.said(text).item == scene.item,
{
}

/// A layer that is pushed stands on top of those that were there, and taking
/// it off brings back what was shown before.
pub proof fn layers_are_stacked(scene: Scene, layer: Layer)
    ensures
        ({
            let next = scene.pushed(layer);
            &&& next.layers.len() == scene.layers.len() + 1
            &&& next.layers[scene.layers.len() as int] == layer
            &&& forall|i: int|
                0 <= i < scene.layers.len() ==> #[trigger] next.layers[i] == scene.layers[i]
            &&& next.top() == Some(layer)
            &&& next.popped() == scene
            &&& next.status == scene.status && next.root == scene.root && next.item == scene.item
        }),
{
    assert(scene.layers.push(layer).drop_last() =~= scene.layers);
}

/// A layer that is shown stands alone, and the status row stays as it was.
pub proof fn a_layer_that_is_shown_stands_alone(scene: Scene, layer: Layer)
    ensures
        scene.showing(layer).layers == seq![layer],
        scene.showing(layer).status == scene.status,
        scene.showing(layer).root == scene.root,
        scene.showing(layer).item == scene.item,
        scene.cleared().layers.len() == 0,
        scene.cleared().status == scene.status,
{
    assert(scene.showing(layer).layers =~= seq![layer]);
}

/// Taking a layer off takes the topmost one; with none there is nothing to
/// take.
pub proof fn the_topmost_layer_is_taken_off(scene: Scene)
    ensures
        ({
            let next = scene.popped();
            &&& scene.layers.len() == 0 ==> next == scene && scene.top() is None
            &&& scene.layers.len() > 0 ==> next.layers.len() == scene.layers.len() - 1
                && scene.top() == Some(scene.layers[scene.layers.len() - 1])
            &&& forall|i: int|
                0 <= i < next.layers.len() ==> #[trigger] next.layers[i] == scene.layers[i]
            &&& next.status == scene.status && next.root == scene.root && next.item == scene.item
        }),
{
}

/// A remark goes to the prompt on top and changes nothing else of it; where
/// no prompt is on top nothing happens.
pub proof fn remarks_stand_in_the_prompt(scene: Scene, remark: Option<Seq<char>>)
    ensures
        ({
            let next = scene.remarked(remark);
            let count = scene.layers.len();
            if count > 0 && scene.layers[count - 1] is Prompt {
                let before = scene.layers[count - 1];
                let after = next.layers[count - 1];
                &&& same_beneath(next, scene)
                &&& after is Prompt
                &&& after->label == before->label
                &&& after->line == before->line
                &&& after->target == before->target
                &&& after->feedback == remark
            } else {
                next == scene
            }
        }),
{
}

/// A list goes to the picker on top and changes nothing else of it; where no
/// picker is on top nothing happens.
pub proof fn listings_stand_in_the_picker(scene: Scene, list: Seq<Choice>)
    ensures
        ({
            let next = scene.listing(list);
            let count = scene.layers.len();
            if count > 0 && scene.layers[count - 1] is Picker {
                let before = scene.layers[count - 1];
                let after = next.layers[count - 1];
                &&& same_beneath(next, scene)
                &&& after is Picker
                &&& after->entries == list
                &&& after->query == before->query
                &&& after->pattern == before->pattern
                &&& after->owner == before->owner
                &&& after->Picker_title == before->Picker_title
            } else {
                next == scene
            }
        }),
{
}

/// A picker or a prompt is only asked of when it is on top.
pub proof fn only_the_topmost_layer_is_asked(scene: Scene, owner: PickerOwner, purpose: Purpose)
    ensures
        scene.shows_picker(owner) <==> scene.layers.len() > 0 && scene.layers[scene.layers.len()
            - 1] is Picker && scene.layers[scene.layers.len() - 1]->owner == owner,
        scene.prompts_for() == Some(purpose) <==> scene.layers.len() > 0
            && scene.layers[scene.layers.len() - 1] is Prompt && scene.layers[scene.layers.len()
            - 1]->target == purpose,
{
}

/// A prompt starts with its text, the cursor behind it, and no remark; a
/// picker starts with its query as the pattern.
pub proof fn prompts_start_with_the_cursor_at_the_end(
    label: Seq<char>,
    text: Seq<char>,
    purpose: Purpose,
    entries: Seq<Choice>,
    owner: PickerOwner,
)
    ensures
        ({
            let layer = prompt_layer(label, text, purpose);
            &&& layer is Prompt
            &&& layer->label == label
            &&& layer->line.text == text
            &&& layer->line.position == text.len()
            &&& layer->target == purpose
            &&& layer->feedback is None
        }),
        ({
            let layer = picker_layer(label, text, entries, owner);
            &&& layer is Picker
            &&& layer->Picker_title == label
            &&& layer->query.text == text
            &&& layer->query.position == text.len()
            &&& layer->pattern == text
            &&& layer->entries == entries
            &&& layer->owner == owner
        }),
{
}

} // verus!
