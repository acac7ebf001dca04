//! The buffers, textures and images around a frame.

use scene_plan::geometry::{size, Bounds, ContentMask, DevicePixels, ScaledPixels, Size};
use scene_plan::renderer::extent::Extent;
use scene_plan::renderer::instances::{
    InstanceBuffer, InstanceBufferPool, InstanceBufferWriter, InstanceError,
    FIRST_INSTANCE_BUFFER_SIZE, MAX_INSTANCE_BUFFER_SIZE,
};
use scene_plan::renderer::readback::{read_image, swap_channels, ReadbackError, RgbaPixels};
use scene_plan::renderer::state::{
    needs_new_target, path_textures, render_size, scene_has_a_backdrop_filter, DrawableReads,
    PathTextures, RenderError, SurfaceBounds, SurfaceFormat, BGRA_32, BIPLANAR_FULL_RANGE,
};
use scene_plan::scene::filter::SceneFilter;
use scene_plan::scene::group::GroupSpec;
use scene_plan::scene::ids::ClipId;
use scene_plan::scene::primitive::PaintSurface;
use scene_plan::scene::recording::Scene;

fn device_size(width: i32, height: i32) -> Size<DevicePixels> {
    size(DevicePixels(width), DevicePixels(height))
}

/// A buffer is its size and a number of its own.
fn make(size: usize) -> (usize, &'static str) {
    (size, "new")
}

#[test]
fn allocations_are_aligned_and_follow_one_another() {
    let mut pool: InstanceBufferPool<(usize, &str)> = InstanceBufferPool::default();
    assert_eq!(pool.buffer_size, FIRST_INSTANCE_BUFFER_SIZE);
    let mut writer = InstanceBufferWriter::new(&mut pool, make);
    assert_eq!(writer.allocate(&mut pool, 10, make), Ok(0));
    assert_eq!(writer.allocate(&mut pool, 300, make), Ok(256));
    assert_eq!(writer.allocate(&mut pool, 1, make), Ok(768));
    let written = writer.finish(false);
    assert_eq!(written.current_changed, 769);
    assert!(written.changed.is_empty());
}

#[test]
fn a_frame_that_outgrows_its_buffer_gets_a_larger_one() {
    let mut pool: InstanceBufferPool<(usize, &str)> = InstanceBufferPool::default();
    let mut writer = InstanceBufferWriter::new(&mut pool, make);
    assert_eq!(writer.allocate(&mut pool, 100, make), Ok(0));
    assert_eq!(writer.allocate(&mut pool, FIRST_INSTANCE_BUFFER_SIZE, make), Ok(0));
    assert_eq!(pool.buffer_size, 2 * FIRST_INSTANCE_BUFFER_SIZE);
    let written = writer.finish(false);
    assert_eq!(written.current.size, 2 * FIRST_INSTANCE_BUFFER_SIZE);
    assert_eq!(written.current.buffer, (2 * FIRST_INSTANCE_BUFFER_SIZE, "new"));
    assert_eq!(written.changed.len(), 1);
    assert_eq!(written.changed[0].1, 100);
    pool.release(written.current);
    assert_eq!(pool.buffers.len(), 1);
    // One of another size is let go of.
    pool.release(InstanceBuffer { buffer: (1, "old"), size: 1 });
    assert_eq!(pool.buffers.len(), 1);
    // A buffer of the pool's is used again before a new one is made.
    pool.buffers[0].1 = "kept";
    assert_eq!(pool.acquire(make).buffer.1, "kept");
}

#[test]
fn nothing_is_written_back_to_shared_memory() {
    let mut pool: InstanceBufferPool<(usize, &str)> = InstanceBufferPool::default();
    let mut writer = InstanceBufferWriter::new(&mut pool, make);
    assert_eq!(writer.allocate(&mut pool, 100, make), Ok(0));
    let written = writer.finish(true);
    assert_eq!(written.current_changed, 0);
    assert!(written.changed.is_empty());
}

#[test]
fn what_no_buffer_holds_is_refused() {
    let mut pool: InstanceBufferPool<(usize, &str)> = InstanceBufferPool::default();
    let mut writer = InstanceBufferWriter::new(&mut pool, make);
    assert_eq!(
        writer.allocate(&mut pool, MAX_INSTANCE_BUFFER_SIZE + 1, make),
        Err(InstanceError::TooLarge { required: MAX_INSTANCE_BUFFER_SIZE + 1 })
    );
    assert_eq!(writer.allocate(&mut pool, MAX_INSTANCE_BUFFER_SIZE, make), Ok(0));
    assert_eq!(
        writer.allocate(&mut pool, 1, make),
        Err(InstanceError::FrameTooLarge)
    );
}

#[test]
fn an_image_is_read_back_red_first() {
    assert_eq!(
        read_image(2, 1, vec![1, 2, 3, 4, 5, 6, 7, 8]),
        Ok(RgbaPixels {
            width: 2,
            height: 1,
            bytes: vec![3, 2, 1, 4, 7, 6, 5, 8],
        })
    );
    // What is left over is kept as it is.
    assert_eq!(
        read_image(1, 1, vec![1, 2, 3, 4, 9]).map(|image| image.bytes),
        Ok(vec![3, 2, 1, 4, 9])
    );
    assert_eq!(read_image(0, 7, vec![]).map(|image| image.bytes), Ok(vec![]));
}

#[test]
fn too_few_bytes_are_no_image() {
    assert_eq!(
        read_image(2, 1, vec![1, 2, 3, 4, 5, 6, 7]),
        Err(ReadbackError::TooFewBytes)
    );
    assert_eq!(
        read_image(u32::MAX, u32::MAX, vec![]),
        Err(ReadbackError::TooFewBytes)
    );
}

#[test]
fn swapping_channels_twice_changes_nothing() {
    let mut bytes = vec![1, 2, 3, 4, 5, 6, 7, 8, 9, 10];
    swap_channels(&mut bytes);
    assert_eq!(bytes, vec![3, 2, 1, 4, 7, 6, 5, 8, 9, 10]);
    swap_channels(&mut bytes);
    assert_eq!(bytes, vec![1, 2, 3, 4, 5, 6, 7, 8, 9, 10]);
}

#[test]
fn a_texture_of_no_size_is_not_rendered_into() {
    assert_eq!(
        render_size(device_size(0, 5)),
        Err(RenderError::InvalidSize(device_size(0, 5)))
    );
    let extent = Extent { width: 4, height: 5 };
    assert_eq!(render_size(device_size(4, 5)), Ok(extent));
    assert!(needs_new_target(None, extent));
    assert!(!needs_new_target(Some(extent), extent));
    assert!(needs_new_target(Some(Extent { width: 4, height: 6 }), extent));
}

#[test]
fn paths_are_rasterized_through_textures_of_the_windows_size() {
    assert_eq!(path_textures(device_size(0, 9), 4, true), None);
    assert_eq!(
        path_textures(device_size(8, 9), 4, true),
        Some(PathTextures {
            extent: Extent { width: 8, height: 9 },
            samples: Some(4),
            memoryless: true,
        })
    );
    assert_eq!(
        path_textures(device_size(8, 9), 1, true),
        Some(PathTextures {
            extent: Extent { width: 8, height: 9 },
            samples: None,
            memoryless: false,
        })
    );
}

#[test]
fn drawables_become_readable_a_frame_after_they_are_asked_for() {
    let plain = Scene::default();
    let mut frosted = Scene::default();
    frosted.push_group(GroupSpec {
        backdrop_filter: Some(SceneFilter::ColorMatrix([0; 20])),
        ..Default::default()
    });
    assert!(scene_has_a_backdrop_filter(&frosted));
    assert!(!scene_has_a_backdrop_filter(&plain));
    let mut reads = DrawableReads { readable: false, requested: false };
    assert!(!reads.advance(&plain));
    assert!(!reads.requested);
    assert!(reads.advance(&frosted));
    assert!(!reads.readable);
    assert!(!reads.advance(&plain));
    assert!(reads.readable);
    assert!(!reads.advance(&frosted));
    assert!(reads.readable);
}

#[test]
fn a_surface_is_drawn_in_the_two_formats_there_are() {
    assert_eq!(SurfaceFormat::of(BIPLANAR_FULL_RANGE), Some(SurfaceFormat::Biplanar));
    assert_eq!(SurfaceFormat::of(BGRA_32), Some(SurfaceFormat::Bgra));
    assert_eq!(SurfaceFormat::of(0x3432_3076), None);
}

#[test]
fn a_surfaces_record_says_where_it_is_drawn() {
    let bounds: Bounds<ScaledPixels> = Bounds::from_units(1, 2, 3, 4);
    let surfaces = vec![PaintSurface {
        order: 9,
        clip: ClipId(3),
        bounds,
        content_mask: ContentMask::new(bounds),
        image_buffer: 77,
    }];
    assert_eq!(
        SurfaceBounds::of(&surfaces),
        vec![SurfaceBounds {
            bounds,
            content_mask: ContentMask::new(bounds),
            clip: ClipId(3),
            pad: 0,
        }]
    );
}
