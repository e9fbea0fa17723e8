# snapocr_shot

The verified core of a Wayland "freeze the screens, drag a rectangle, get a
PNG" tool. `src/` is the library, checked by Verus; `app/` is the program
around it (Wayland protocol plumbing, shared memory, files), and keeps the
floating-point drawing helpers for toast icons, which the program does not
show yet.

- `image`: frozen screen images, selections, cropping.
- `pixel_format`: wl_shm formats, format choice, decoding to RGBA8.
- `capture`: what a capture session and frame report, and what to do next.
- `render`: the overlay's bright and dim buffers, outline, and frame.
- `selection`: pointer tracking across the overlays, and clamping a dragged
  rectangle into a selection.
- `canvas`: alpha blending and the 5x7 dot-matrix text.
- `encode`: PNG output through the `png` crate.
- `watchdog`: the time limit after which the program gives up.
